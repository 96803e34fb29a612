//! The index of advertised routes, and which node a destination is reached through.

use vstd::prelude::*;
use vstd::utf8::*;

use crate::acl::{
    acl_allows_peer, acl_allows_route_destination, acl_filter_peer, destination_allowed,
    law_peer_is_permitted_by_plain_rules, law_target_is_seen_with_its_permitted_routes,
    peer_allowed, selectors_match, visible_peer,
};
use crate::ids::NodeId;
use crate::lists::{
    first_in, gathered, lemma_first_in_extends, lemma_first_in_found, lemma_gathered_members,
};
use crate::net::{Cidr, IpAddr};
use crate::nodes::{find_node, named};
use crate::order::{
    key_lt, key_view, keys_of, keys_view, lemma_sorted_by, pick, sort_records, sorted_by, KeyPart,
    KeyPartView, KeyView,
};
use crate::route_table::{host_network, vpn_host_cidr};
use crate::routes::{node_id_order, overlay_route_is_self_owned, self_owned, sort_by_node_id};
use crate::text::{hexadecimal, hexadecimal_text, lemma_bytes_lt_irreflexive, text_lt};
use crate::types::{
    lemma_views_push, opt_view, views, AclAction, ClusterPolicy, ClusterPolicyView, NodeRecord,
    NodeRecordView, Record, Route, RouteView,
};

verus! {

/// A route with the node that owns it.
#[derive(Debug)]
pub struct IndexedOverlayRoute {
    pub node_id: NodeId,
    pub route: Route,
}

/// What an [`IndexedOverlayRoute`] holds.
#[verifier::ext_equal]
pub struct IndexedOverlayRouteView {
    pub node_id: Seq<char>,
    pub route: RouteView,
}

impl View for IndexedOverlayRoute {
    type V = IndexedOverlayRouteView;

    open spec fn view(&self) -> IndexedOverlayRouteView {
        IndexedOverlayRouteView { node_id: self.node_id@, route: self.route@ }
    }
}

impl Record for IndexedOverlayRoute {
    fn duplicate(&self) -> (r: Self) {
        IndexedOverlayRoute { node_id: self.node_id.clone(), route: self.route.duplicate() }
    }

    fn alike(&self, other: &Self) -> (r: bool) {
        self.node_id == other.node_id && self.route.alike(&other.route)
    }
}

/// The index of the routes that nodes own, and of the addresses that nodes have.
pub struct OverlayRouteIndex {
    /// The addresses of nodes with their identifiers, in the order of the identifiers.
    pub vpn_owners: Vec<(IpAddr, NodeId)>,
    /// The routes in the order in which they are tried.
    pub routes: Vec<IndexedOverlayRoute>,
    /// The nodes that the index was built for.
    pub nodes: Ghost<Seq<NodeRecordView>>,
}

/// The route with its network in canonical form.
pub open spec fn canonical_route(route: RouteView) -> RouteView {
    RouteView { cidr: route.cidr.canonical(), ..route }
}

/// The routes that a node owns, in canonical form.
pub open spec fn owned_routes(node: NodeRecordView, n: nat) -> Seq<IndexedOverlayRouteView> {
    gathered(
        node.routes,
        |route: RouteView|
            if self_owned(node.node_id, route) {
                Some(
                    IndexedOverlayRouteView {
                        node_id: node.node_id,
                        route: canonical_route(route),
                    },
                )
            } else {
                None
            },
        n,
    )
}

/// The routes that the first `n` nodes own.
pub open spec fn all_owned_routes(nodes: Seq<NodeRecordView>, n: nat) -> Seq<
    IndexedOverlayRouteView,
>
    decreases n,
{
    if n == 0 {
        Seq::empty()
    } else {
        all_owned_routes(nodes, (n - 1) as nat) + owned_routes(
            nodes[n - 1],
            nodes[n - 1].routes.len(),
        )
    }
}

/// The key by which routes are tried: longer prefixes first, then by metric, owner and identifier.
pub open spec fn trial_key(entry: IndexedOverlayRouteView) -> KeyView {
    seq![
        KeyPartView::Number(128 - entry.route.cidr.bits()),
        KeyPartView::Number(entry.route.metric as int),
        KeyPartView::Bytes(encode_utf8(entry.node_id)),
        KeyPartView::Bytes(encode_utf8(entry.route.id)),
    ]
}

/// The nodes in the order of their identifiers.
pub open spec fn nodes_in_order(nodes: Seq<NodeRecordView>) -> Seq<NodeRecordView> {
    pick(nodes, node_id_order(nodes))
}

/// The routes of nodes in the order in which they are tried.
pub open spec fn indexed_routes(nodes: Seq<NodeRecordView>) -> Seq<IndexedOverlayRouteView> {
    let ordered = nodes_in_order(nodes);
    sorted_by(
        all_owned_routes(ordered, ordered.len()),
        |entry: IndexedOverlayRouteView| trial_key(entry),
    )
}

/// The owner of an address: the first node that has it.
pub open spec fn address_owner(nodes: Seq<NodeRecordView>, ip: IpAddr, n: nat) -> Option<Seq<char>> {
    first_in(
        n,
        |i: int|
            if nodes[i].vpn_ip == ip {
                Some(nodes[i].node_id)
            } else {
                None
            },
    )
}

impl OverlayRouteIndex {
    /// The index lists the addresses and the routes of its nodes.
    pub open spec fn wf(&self) -> bool {
        let ordered = nodes_in_order(self.nodes@);
        &&& self.vpn_owners@.len() == ordered.len()
        &&& forall|i: int|
            0 <= i < ordered.len() ==> (#[trigger] self.vpn_owners@[i]).0 == ordered[i].vpn_ip
                && self.vpn_owners@[i].1@ == ordered[i].node_id
        &&& views(self.routes@) == indexed_routes(self.nodes@)
    }
}

/// The identifier of the route to a single destination.
pub open spec fn destination_route_id(destination: IpAddr) -> Seq<char> {
    match destination {
        IpAddr::V4(addr) => "overlay-v4-"@ + hexadecimal(addr as nat, 8),
        IpAddr::V6(addr) => "overlay-v6-"@ + hexadecimal(addr as nat, 32),
    }
}

/// The identifier of the route to a single destination.
pub fn overlay_destination_route_id(destination: IpAddr) -> (r: String)
    ensures
        r@ == destination_route_id(destination),
{
    match destination {
        IpAddr::V4(addr) => "overlay-v4-".to_owned().concat(
            hexadecimal_text(addr as u128, 8).as_str(),
        ),
        IpAddr::V6(addr) => "overlay-v6-".to_owned().concat(
            hexadecimal_text(addr, 32).as_str(),
        ),
    }
}

/// The node through which an entry of the index leads to a destination, with the one route that
/// the source may use for it. Where there are access rules, that route leads to the destination
/// alone.
pub open spec fn reached_through(
    source: NodeRecordView,
    active: Seq<NodeRecordView>,
    entry: IndexedOverlayRouteView,
    destination: IpAddr,
    policy: ClusterPolicyView,
) -> Option<NodeRecordView> {
    if !entry.route.cidr.covers(destination) {
        None
    } else {
        match named(active, entry.node_id) {
            None => None,
            Some(target) => if target.node_id == source.node_id || (policy.acl_rules.len() > 0
                && !destination_allowed(source, target, destination, policy.acl_rules)) {
                None
            } else {
                let route = if policy.acl_rules.len() > 0 {
                    RouteView {
                        id: destination_route_id(destination),
                        cidr: host_network(destination),
                        ..entry.route
                    }
                } else {
                    entry.route
                };
                Some(NodeRecordView { routes: seq![route], ..target })
            },
        }
    }
}

/// The node that an address of its own leads to.
pub open spec fn reached_directly(
    source: NodeRecordView,
    active: Seq<NodeRecordView>,
    owner: Seq<char>,
    policy: ClusterPolicyView,
) -> Option<NodeRecordView> {
    match named(active, owner) {
        None => None,
        Some(target) => if target.node_id == source.node_id {
            None
        } else if policy.acl_rules.len() == 0 {
            Some(target)
        } else if peer_allowed(source, target, policy.acl_rules) {
            visible_peer(source, target, policy.acl_rules)
        } else {
            None
        },
    }
}

/// The node that a destination is reached through, from the routes as they are tried.
pub open spec fn reached_by_route(
    source: NodeRecordView,
    active: Seq<NodeRecordView>,
    routes: Seq<IndexedOverlayRouteView>,
    destination: IpAddr,
    policy: ClusterPolicyView,
    n: nat,
) -> Option<NodeRecordView> {
    first_in(n, |i: int| reached_through(source, active, routes[i], destination, policy))
}

/// The node that a destination is reached through: its owner where it is the address of a node,
/// else the owner of the first route that may be used.
pub open spec fn destination_node(
    source: NodeRecordView,
    nodes: Seq<NodeRecordView>,
    active: Seq<NodeRecordView>,
    destination: IpAddr,
    policy: ClusterPolicyView,
) -> Option<NodeRecordView> {
    let ordered = nodes_in_order(nodes);
    match address_owner(ordered, destination, ordered.len()) {
        Some(owner) => reached_directly(source, active, owner, policy),
        None => {
            let routes = indexed_routes(nodes);
            reached_by_route(source, active, routes, destination, policy, routes.len())
        },
    }
}

fn push_owned_routes(target: &mut Vec<IndexedOverlayRoute>, node: &NodeRecord)
    ensures
        views(final(target)@) == views(old(target)@) + owned_routes(node@, node@.routes.len()),
{
    let ghost all = views(node.routes@);
    let ghost before = views(target@);
    let mut i: usize = 0;
    assert(before =~= before + owned_routes(node@, 0));
    while i < node.routes.len()
        invariant
            i <= node.routes@.len(),
            all == views(node.routes@),
            all == node@.routes,
            views(target@) == before + owned_routes(node@, i as nat),
        decreases node.routes@.len() - i,
    {
        broadcast use lemma_views_push;

        let ghost so_far = views(target@);
        assert(all[i as int] == node.routes@[i as int]@);
        if overlay_route_is_self_owned(node, &node.routes[i]) {
            let mut route = node.routes[i].duplicate();
            route.cidr = route.cidr.trunc();
            assert(route@ == canonical_route(all[i as int]));
            let entry = IndexedOverlayRoute { node_id: node.node_id.clone(), route };
            target.push(entry);
            assert(views(target@) == so_far.push(entry@));
        }
        i = i + 1;
        assert(views(target@) =~= before + owned_routes(node@, i as nat));
    }
}

fn trial_sort_key(entry: &IndexedOverlayRoute) -> (r: Vec<KeyPart>)
    ensures
        key_view(r@) == trial_key(entry@),
{
    let mut owner: Vec<u8> = Vec::new();
    crate::digest::push_bytes(&mut owner, entry.node_id.as_str().as_bytes());
    assert(owner@ =~= encode_utf8(entry@.node_id));
    let mut id: Vec<u8> = Vec::new();
    crate::digest::push_bytes(&mut id, entry.route.id.as_str().as_bytes());
    assert(id@ =~= encode_utf8(entry@.route.id));
    let mut r: Vec<KeyPart> = Vec::new();
    r.push(KeyPart::Number(128 - entry.route.cidr.prefix_len() as i128));
    r.push(KeyPart::Number(entry.route.metric as i128));
    r.push(KeyPart::Bytes(owner));
    r.push(KeyPart::Bytes(id));
    assert(key_view(r@) =~= trial_key(entry@));
    r
}

fn sort_for_trial(entries: &Vec<IndexedOverlayRoute>) -> (r: Vec<IndexedOverlayRoute>)
    ensures
        views(r@) == sorted_by(
            views(entries@),
            |entry: IndexedOverlayRouteView| trial_key(entry),
        ),
{
    let ghost all = views(entries@);
    let mut keys: Vec<Vec<KeyPart>> = Vec::new();
    let mut i: usize = 0;
    while i < entries.len()
        invariant
            i <= entries@.len(),
            keys@.len() == i,
            forall|k: int|
                0 <= k < i ==> key_view((#[trigger] keys@[k])@) == trial_key(entries@[k]@),
        decreases entries@.len() - i,
    {
        keys.push(trial_sort_key(&entries[i]));
        i = i + 1;
    }
    assert(keys_view(keys@) =~= keys_of(all, |entry: IndexedOverlayRouteView| trial_key(entry)));
    sort_records(entries, &keys)
}

/// Finds the node that a destination is reached through, from the routes as they are tried.
pub fn resolve_indexed_route(
    source: &NodeRecord,
    active_nodes: &Vec<NodeRecord>,
    candidates: &Vec<IndexedOverlayRoute>,
    destination: IpAddr,
    policy: &ClusterPolicy,
) -> (r: Option<NodeRecord>)
    ensures
        opt_view(r) == reached_by_route(
            source@,
            views(active_nodes@),
            views(candidates@),
            destination,
            policy@,
            candidates@.len(),
        ),
{
    let ghost all = views(candidates@);
    let ghost active = views(active_nodes@);
    let mut i: usize = 0;
    while i < candidates.len()
        invariant
            i <= candidates@.len(),
            all == views(candidates@),
            active == views(active_nodes@),
            reached_by_route(source@, active, all, destination, policy@, i as nat) is None,
        decreases candidates@.len() - i,
    {
        assert(all[i as int] == candidates@[i as int]@);
        let reached = try_route(source, active_nodes, &candidates[i], destination, policy);
        if reached.is_some() {
            proof {
                lemma_first_in_extends(
                    (i + 1) as nat,
                    all.len(),
                    |k: int| reached_through(source@, active, all[k], destination, policy@),
                );
            }
            return reached;
        }
        i = i + 1;
    }
    None
}

fn try_route(
    source: &NodeRecord,
    active_nodes: &Vec<NodeRecord>,
    candidate: &IndexedOverlayRoute,
    destination: IpAddr,
    policy: &ClusterPolicy,
) -> (r: Option<NodeRecord>)
    ensures
        opt_view(r) == reached_through(
            source@,
            views(active_nodes@),
            candidate@,
            destination,
            policy@,
        ),
{
    if !candidate.route.cidr.contains(&destination) {
        return None;
    }
    let target = match find_node(active_nodes, &candidate.node_id) {
        Some(target) => target,
        None => return None,
    };
    let ruled = policy.acl_rules.len() > 0;
    if target.node_id == source.node_id || (ruled && !acl_allows_route_destination(
        source,
        target,
        destination,
        policy,
    )) {
        return None;
    }
    let mut route = candidate.route.duplicate();
    if ruled {
        route.id = overlay_destination_route_id(destination);
        route.cidr = vpn_host_cidr(&destination);
    }
    let mut reached = target.duplicate();
    let ghost used = route@;
    let mut routes: Vec<Route> = Vec::new();
    routes.push(route);
    assert(views(routes@) =~= seq![used]);
    reached.routes = routes;
    Some(reached)
}

impl OverlayRouteIndex {
    /// The index of some nodes.
    pub fn build(nodes: &Vec<NodeRecord>) -> (r: Self)
        ensures
            r.wf(),
            r.nodes@ == views(nodes@),
    {
        let ghost all = views(nodes@);
        let ghost ordered = nodes_in_order(all);
        let order = sort_by_node_id(nodes);
        let mut vpn_owners: Vec<(IpAddr, NodeId)> = Vec::new();
        let mut owned: Vec<IndexedOverlayRoute> = Vec::new();
        let mut i: usize = 0;
        assert(views(owned@) =~= Seq::empty());
        while i < order.len()
            invariant
                i <= order@.len(),
                all == views(nodes@),
                ordered == nodes_in_order(all),
                order@.map_values(|p: usize| p as int) == node_id_order(all),
                order@.len() == nodes@.len(),
                forall|k: int| 0 <= k < order@.len() ==> (#[trigger] order@[k]) < nodes@.len(),
                vpn_owners@.len() == i,
                forall|k: int|
                    0 <= k < i ==> (#[trigger] vpn_owners@[k]).0 == ordered[k].vpn_ip
                        && vpn_owners@[k].1@ == ordered[k].node_id,
                views(owned@) == all_owned_routes(ordered, i as nat),
            decreases order@.len() - i,
        {
            let node = &nodes[order[i]];
            proof {
                assert(node_id_order(all)[i as int] == order@[i as int] as int);
                assert(ordered[i as int] == node@);
            }
            vpn_owners.push((node.vpn_ip, node.node_id.clone()));
            push_owned_routes(&mut owned, node);
            i = i + 1;
        }
        proof {
            assert(node_id_order(all).len() == order@.len());
        }
        let routes = sort_for_trial(&owned);
        OverlayRouteIndex { vpn_owners, routes, nodes: Ghost(all) }
    }

    fn owner_of(&self, destination: IpAddr) -> (r: Option<&NodeId>)
        requires
            self.wf(),
        ensures
            crate::types::ref_view(r) == address_owner(
                nodes_in_order(self.nodes@),
                destination,
                nodes_in_order(self.nodes@).len(),
            ),
    {
        let ghost ordered = nodes_in_order(self.nodes@);
        let ghost f = |i: int|
            if ordered[i].vpn_ip == destination {
                Some(ordered[i].node_id)
            } else {
                None
            };
        let mut i: usize = 0;
        while i < self.vpn_owners.len()
            invariant
                self.wf(),
                i <= self.vpn_owners@.len(),
                ordered == nodes_in_order(self.nodes@),
                f == (|i: int|
                    if ordered[i].vpn_ip == destination {
                        Some(ordered[i].node_id)
                    } else {
                        None
                    }),
                first_in(i as nat, f) is None,
            decreases self.vpn_owners@.len() - i,
        {
            if self.vpn_owners[i].0 == destination {
                proof {
                    lemma_first_in_extends((i + 1) as nat, ordered.len(), f);
                }
                return Some(&self.vpn_owners[i].1);
            }
            i = i + 1;
        }
        None
    }

    /// Finds the node that a destination is reached through.
    pub fn resolve_destination(
        &self,
        source: &NodeRecord,
        active_nodes: &Vec<NodeRecord>,
        destination: IpAddr,
        policy: &ClusterPolicy,
    ) -> (r: Option<NodeRecord>)
        requires
            self.wf(),
        ensures
            opt_view(r) == destination_node(
                source@,
                self.nodes@,
                views(active_nodes@),
                destination,
                policy@,
            ),
    {
        if let Some(owner) = self.owner_of(destination) {
            let target = match find_node(active_nodes, owner) {
                Some(target) => target,
                None => return None,
            };
            if target.node_id == source.node_id {
                return None;
            }
            if policy.acl_rules.len() == 0 {
                return Some(target.duplicate());
            }
            if acl_allows_peer(source, target, policy) {
                return acl_filter_peer(source, target, policy);
            }
            return None;
        }
        resolve_indexed_route(source, active_nodes, &self.routes, destination, policy)
    }
}

/// The first entry is tried before the second one: its prefix is longer, or else its metric is
/// less, or else the identifier of its node comes first, or else that of its route.
pub open spec fn tried_before(a: IndexedOverlayRouteView, b: IndexedOverlayRouteView) -> bool {
    if a.route.cidr.bits() != b.route.cidr.bits() {
        a.route.cidr.bits() > b.route.cidr.bits()
    } else if a.route.metric != b.route.metric {
        a.route.metric < b.route.metric
    } else if a.node_id != b.node_id {
        text_lt(a.node_id, b.node_id)
    } else {
        text_lt(a.route.id, b.route.id)
    }
}

proof fn lemma_trial_key(a: IndexedOverlayRouteView, b: IndexedOverlayRouteView)
    requires
        tried_before(a, b),
    ensures
        key_lt(trial_key(a), trial_key(b)),
{
    let x = trial_key(a);
    let y = trial_key(b);
    reveal_with_fuel(key_lt, 5);
    encode_utf8_decode_utf8(a.node_id);
    encode_utf8_decode_utf8(b.node_id);
    assert(x.skip(1)[0] == x[1] && y.skip(1)[0] == y[1]);
    assert(x.skip(1).skip(1)[0] == x[2] && y.skip(1).skip(1)[0] == y[2]);
    assert(x.skip(1).skip(1).skip(1)[0] == x[3] && y.skip(1).skip(1).skip(1)[0] == y[3]);
    if encode_utf8(a.route.id) == encode_utf8(b.route.id) {
        lemma_bytes_lt_irreflexive(encode_utf8(a.route.id));
    }
}

/// Of the routes that may be used for a destination, one with the longest prefix is used, of those
/// one with the least metric, of those one of the node whose identifier comes first, and of those
/// the one whose own identifier comes first.
pub proof fn law_longest_prefix_is_used(
    source: NodeRecordView,
    nodes: Seq<NodeRecordView>,
    active: Seq<NodeRecordView>,
    destination: IpAddr,
    policy: ClusterPolicyView,
) -> (used: int)
    requires
        reached_by_route(
            source,
            active,
            indexed_routes(nodes),
            destination,
            policy,
            indexed_routes(nodes).len(),
        ) is Some,
    ensures
        ({
            let routes = indexed_routes(nodes);
            &&& 0 <= used < routes.len()
            &&& reached_through(source, active, routes[used], destination, policy)
                == reached_by_route(source, active, routes, destination, policy, routes.len())
            &&& forall|j: int|
                0 <= j < routes.len() && reached_through(
                    source,
                    active,
                    #[trigger] routes[j],
                    destination,
                    policy,
                ) is Some ==> !tried_before(routes[j], routes[used])
        }),
{
    let routes = indexed_routes(nodes);
    let ordered = nodes_in_order(nodes);
    let owned = all_owned_routes(ordered, ordered.len());
    let key = |entry: IndexedOverlayRouteView| trial_key(entry);
    let f = |i: int| reached_through(source, active, routes[i], destination, policy);
    let used = lemma_first_in_found(routes.len(), f);
    lemma_sorted_by(owned, key);
    assert forall|j: int| 0 <= j < routes.len() && reached_through(
        source,
        active,
        #[trigger] routes[j],
        destination,
        policy,
    ) is Some implies !tried_before(routes[j], routes[used]) by {
        if j < used {
            assert(f(j) is None);
        } else if j > used {
            assert(!key_lt(key(routes[j]), key(routes[used])));
            if tried_before(routes[j], routes[used]) {
                lemma_trial_key(routes[j], routes[used]);
            }
        } else {
            lemma_bytes_lt_irreflexive(encode_utf8(routes[used].route.id));
        }
    }
    used
}

/// No destination leads back to the node that asks for it.
pub proof fn law_destination_is_another_node(
    source: NodeRecordView,
    nodes: Seq<NodeRecordView>,
    active: Seq<NodeRecordView>,
    destination: IpAddr,
    policy: ClusterPolicyView,
)
    ensures
        destination_node(source, nodes, active, destination, policy) matches Some(target)
            ==> target.node_id != source.node_id,
{
    let routes = indexed_routes(nodes);
    let f = |i: int| reached_through(source, active, routes[i], destination, policy);
    if first_in(routes.len(), f) is Some {
        let used = lemma_first_in_found(routes.len(), f);
        assert(f(used) is Some);
    }
}

/// Where there are access rules, a route that is handed out leads to the destination alone, and
/// only where the rules permit the source to reach it.
pub proof fn law_ruled_route_is_a_host_route(
    source: NodeRecordView,
    active: Seq<NodeRecordView>,
    entry: IndexedOverlayRouteView,
    destination: IpAddr,
    policy: ClusterPolicyView,
)
    requires
        policy.acl_rules.len() > 0,
        reached_through(source, active, entry, destination, policy) is Some,
    ensures
        ({
            let target = reached_through(source, active, entry, destination, policy)->0;
            &&& target.routes.len() == 1
            &&& target.routes[0].cidr == host_network(destination)
            &&& destination_allowed(
                source,
                named(active, entry.node_id)->0,
                destination,
                policy.acl_rules,
            )
        }),
{
}

proof fn lemma_ordered_members(nodes: Seq<NodeRecordView>)
    ensures
        forall|node: NodeRecordView| #[trigger]
            nodes_in_order(nodes).contains(node) <==> nodes.contains(node),
        nodes_in_order(nodes).len() == nodes.len(),
{
    let order = node_id_order(nodes);
    crate::order::law_stable_order(crate::routes::node_id_keys(nodes), nodes.len());
    let ordered = nodes_in_order(nodes);
    assert forall|node: NodeRecordView| #[trigger] ordered.contains(node) <==> nodes.contains(
        node,
    ) by {
        if ordered.contains(node) {
            let i = choose|i: int| 0 <= i < ordered.len() && ordered[i] == node;
            assert(nodes[order[i]] == node);
        }
        if nodes.contains(node) {
            let i = choose|i: int| 0 <= i < nodes.len() && nodes[i] == node;
            assert(order.contains(i));
            let k = choose|k: int| 0 <= k < order.len() && order[k] == i;
            assert(ordered[k] == node);
        }
    }
}

proof fn lemma_named_unique(active: Seq<NodeRecordView>, a: int)
    requires
        0 <= a < active.len(),
        forall|b: int|
            0 <= b < active.len() && (#[trigger] active[b]).node_id == active[a].node_id
                ==> active[b] == active[a],
    ensures
        named(active, active[a].node_id) == Some(active[a]),
{
    crate::nodes::lemma_node_named(active, active[a].node_id, active.len());
}

/// A node is reached at its own VPN address. Where the destination is the address of a node that is
/// active and is not the source, that node is given as it is where there are no access rules. Where
/// there are some, it is given exactly where some allowing rule without networks is about the source
/// and the node and no denying rule without networks is, and then with exactly those of its routes
/// that the source may use.
pub proof fn law_node_is_reached_at_its_address(
    source: NodeRecordView,
    nodes: Seq<NodeRecordView>,
    active: Seq<NodeRecordView>,
    destination: IpAddr,
    policy: ClusterPolicyView,
    k: int,
    a: int,
)
    requires
        0 <= k < nodes.len(),
        nodes[k].vpn_ip == destination,
        forall|j: int|
            0 <= j < nodes.len() && (#[trigger] nodes[j]).vpn_ip == destination
                ==> nodes[j].node_id == nodes[k].node_id,
        0 <= a < active.len(),
        active[a].node_id == nodes[k].node_id,
        forall|b: int|
            0 <= b < active.len() && (#[trigger] active[b]).node_id == active[a].node_id
                ==> active[b] == active[a],
    ensures
        ({
            let target = active[a];
            let rules = policy.acl_rules;
            let found = destination_node(source, nodes, active, destination, policy);
            &&& target.node_id == source.node_id ==> found is None
            &&& target.node_id != source.node_id && rules.len() == 0 ==> found == Some(target)
            &&& target.node_id != source.node_id && rules.len() > 0 ==> {
                &&& found is Some <==> (exists|i: int|
                    0 <= i < rules.len() && (#[trigger] rules[i]).action == AclAction::Allow
                        && rules[i].routes.len() == 0 && selectors_match(rules[i], source, target))
                    && (forall|i: int|
                    0 <= i < rules.len() && (#[trigger] rules[i]).action == AclAction::Deny
                        && rules[i].routes.len() == 0 ==> !selectors_match(
                        rules[i],
                        source,
                        target,
                    ))
                &&& found matches Some(seen) ==> {
                    &&& seen == (NodeRecordView { routes: seen.routes, ..target })
                    &&& forall|route: RouteView| #[trigger]
                        seen.routes.contains(route) <==> target.routes.contains(route)
                            && crate::acl::route_allowed(source, target, route, rules)
                }
            }
        }),
{
    let ordered = nodes_in_order(nodes);
    let n = ordered.len();
    let f = |i: int|
        if ordered[i].vpn_ip == destination {
            Some(ordered[i].node_id)
        } else {
            None
        };
    lemma_ordered_members(nodes);
    lemma_named_unique(active, a);
    assert(nodes.contains(nodes[k]));
    assert(ordered.contains(nodes[k]));
    let p = choose|p: int| 0 <= p < n && ordered[p] == nodes[k];
    crate::lists::lemma_first_in_none(n, f);
    assert(f(p) is Some);
    let at = lemma_first_in_found(n, f);
    assert(ordered.contains(ordered[at]));
    assert(nodes.contains(ordered[at]));
    let j = choose|j: int| 0 <= j < nodes.len() && nodes[j] == ordered[at];
    assert(nodes[j].vpn_ip == destination);
    assert(address_owner(ordered, destination, n) == Some(nodes[k].node_id));
    law_peer_is_permitted_by_plain_rules(source, active[a], policy.acl_rules);
    law_target_is_seen_with_its_permitted_routes(source, active[a], policy.acl_rules);
}

/// A destination that is the address of a node that is not active leads nowhere, whatever routes
/// there are.
pub proof fn law_inactive_node_is_not_reached(
    source: NodeRecordView,
    nodes: Seq<NodeRecordView>,
    active: Seq<NodeRecordView>,
    destination: IpAddr,
    policy: ClusterPolicyView,
    k: int,
)
    requires
        0 <= k < nodes.len(),
        nodes[k].vpn_ip == destination,
        forall|j: int, b: int|
            0 <= j < nodes.len() && 0 <= b < active.len() && (#[trigger] nodes[j]).vpn_ip
                == destination ==> nodes[j].node_id != (#[trigger] active[b]).node_id,
    ensures
        destination_node(source, nodes, active, destination, policy) is None,
{
    let ordered = nodes_in_order(nodes);
    let n = ordered.len();
    let f = |i: int|
        if ordered[i].vpn_ip == destination {
            Some(ordered[i].node_id)
        } else {
            None
        };
    lemma_ordered_members(nodes);
    assert(nodes.contains(nodes[k]));
    assert(ordered.contains(nodes[k]));
    let p = choose|p: int| 0 <= p < n && ordered[p] == nodes[k];
    crate::lists::lemma_first_in_none(n, f);
    assert(f(p) is Some);
    let at = lemma_first_in_found(n, f);
    assert(ordered.contains(ordered[at]));
    assert(nodes.contains(ordered[at]));
    let j = choose|j: int| 0 <= j < nodes.len() && nodes[j] == ordered[at];
    assert(nodes[j].vpn_ip == destination);
    let owner = ordered[at].node_id;
    crate::nodes::lemma_node_named(active, owner, active.len());
    if named(active, owner) is Some {
        let node = named(active, owner)->0;
        let b = choose|b: int| 0 <= b < active.len() && active[b] == node;
        assert(active[b].node_id == nodes[j].node_id);
    }
}

/// A route of a node can be used for a destination: the node advertises it for itself, it has the
/// destination, the node is active and not the source, and the access rules let the source go there
/// through it.
pub open spec fn route_serves(
    source: NodeRecordView,
    active: Seq<NodeRecordView>,
    destination: IpAddr,
    policy: ClusterPolicyView,
    node: NodeRecordView,
    route: RouteView,
) -> bool {
    &&& route.advertised_by == node.node_id
    &&& route.via is None || route.via == Some(node.node_id)
    &&& route.cidr.covers(destination)
    &&& node.node_id != source.node_id
    &&& named(active, node.node_id) is Some
    &&& policy.acl_rules.len() > 0 ==> destination_allowed(
        source,
        named(active, node.node_id)->0,
        destination,
        policy.acl_rules,
    )
}

proof fn lemma_owned_members(nodes: Seq<NodeRecordView>, n: nat)
    requires
        n <= nodes.len(),
    ensures
        forall|entry: IndexedOverlayRouteView| #[trigger]
            all_owned_routes(nodes, n).contains(entry) <==> exists|i: int, r: int|
                0 <= i < n && 0 <= r < nodes[i].routes.len() && nodes[i].node_id == entry.node_id
                    && (#[trigger] nodes[i].routes[r]).advertised_by == nodes[i].node_id && (
                nodes[i].routes[r].via is None || nodes[i].routes[r].via == Some(nodes[i].node_id))
                    && entry.route == canonical_route(nodes[i].routes[r]),
    decreases n,
{
    if n > 0 {
        lemma_owned_members(nodes, (n - 1) as nat);
        let node = nodes[n - 1];
        let f = |route: RouteView|
            if self_owned(node.node_id, route) {
                Some(
                    IndexedOverlayRouteView {
                        node_id: node.node_id,
                        route: canonical_route(route),
                    },
                )
            } else {
                None
            };
        lemma_gathered_members(node.routes, f);
        let before = all_owned_routes(nodes, (n - 1) as nat);
        let own = gathered(node.routes, f, node.routes.len());
        assert(all_owned_routes(nodes, n) == before + own);
        assert forall|entry: IndexedOverlayRouteView| #[trigger] (before + own).contains(entry)
            <==> before.contains(entry) || own.contains(entry) by {
            if (before + own).contains(entry) {
                let k = choose|k: int| 0 <= k < (before + own).len() && (before + own)[k] == entry;
                if k >= before.len() {
                    assert(own[k - before.len()] == entry);
                } else {
                    assert(before[k] == entry);
                }
            }
            if before.contains(entry) {
                let k = choose|k: int| 0 <= k < before.len() && before[k] == entry;
                assert((before + own)[k] == entry);
            }
            if own.contains(entry) {
                let k = choose|k: int| 0 <= k < own.len() && own[k] == entry;
                assert((before + own)[before.len() + k] == entry);
            }
        }
        assert forall|entry: IndexedOverlayRouteView| #[trigger]
            all_owned_routes(nodes, n).contains(entry) <==> exists|i: int, r: int|
            0 <= i < n && 0 <= r < nodes[i].routes.len() && nodes[i].node_id == entry.node_id && (
            #[trigger] nodes[i].routes[r]).advertised_by == nodes[i].node_id && (
            nodes[i].routes[r].via is None || nodes[i].routes[r].via == Some(nodes[i].node_id))
                && entry.route == canonical_route(nodes[i].routes[r]) by {
            if own.contains(entry) {
                let r = choose|r: int|
                    0 <= r < node.routes.len() && f(#[trigger] node.routes[r]) == Some(entry);
                assert(nodes[n - 1].routes[r].advertised_by == node.node_id);
            }
            if before.contains(entry) {
                let (i, r) = choose|i: int, r: int|
                    0 <= i < n - 1 && 0 <= r < nodes[i].routes.len() && nodes[i].node_id
                        == entry.node_id && (#[trigger] nodes[i].routes[r]).advertised_by
                        == nodes[i].node_id && (nodes[i].routes[r].via is None
                        || nodes[i].routes[r].via == Some(nodes[i].node_id)) && entry.route
                        == canonical_route(nodes[i].routes[r]);
                assert(nodes[i].routes[r].advertised_by == nodes[i].node_id);
            }
            if exists|i: int, r: int|
                0 <= i < n && 0 <= r < nodes[i].routes.len() && nodes[i].node_id == entry.node_id
                    && (#[trigger] nodes[i].routes[r]).advertised_by == nodes[i].node_id && (
                nodes[i].routes[r].via is None || nodes[i].routes[r].via == Some(nodes[i].node_id))
                    && entry.route == canonical_route(nodes[i].routes[r]) {
                let (i, r) = choose|i: int, r: int|
                    0 <= i < n && 0 <= r < nodes[i].routes.len() && nodes[i].node_id
                        == entry.node_id && (#[trigger] nodes[i].routes[r]).advertised_by
                        == nodes[i].node_id && (nodes[i].routes[r].via is None
                        || nodes[i].routes[r].via == Some(nodes[i].node_id)) && entry.route
                        == canonical_route(nodes[i].routes[r]);
                if i == n - 1 {
                    assert(f(node.routes[r]) == Some(entry));
                    assert(own.contains(entry));
                } else {
                    assert(before.contains(entry));
                }
            }
        }
    }
}

proof fn lemma_indexed_members(nodes: Seq<NodeRecordView>)
    ensures
        forall|entry: IndexedOverlayRouteView| #[trigger]
            indexed_routes(nodes).contains(entry) <==> exists|i: int, r: int|
                0 <= i < nodes.len() && 0 <= r < nodes[i].routes.len() && nodes[i].node_id
                    == entry.node_id && (#[trigger] nodes[i].routes[r]).advertised_by
                    == nodes[i].node_id && (nodes[i].routes[r].via is None
                    || nodes[i].routes[r].via == Some(nodes[i].node_id)) && entry.route
                    == canonical_route(nodes[i].routes[r]),
{
    let ordered = nodes_in_order(nodes);
    let all = all_owned_routes(ordered, ordered.len());
    lemma_ordered_members(nodes);
    lemma_owned_members(ordered, ordered.len());
    lemma_sorted_by(all, |entry: IndexedOverlayRouteView| trial_key(entry));
    assert forall|entry: IndexedOverlayRouteView| #[trigger] indexed_routes(nodes).contains(entry)
        <==> exists|i: int, r: int|
        0 <= i < nodes.len() && 0 <= r < nodes[i].routes.len() && nodes[i].node_id == entry.node_id
            && (#[trigger] nodes[i].routes[r]).advertised_by == nodes[i].node_id && (
        nodes[i].routes[r].via is None || nodes[i].routes[r].via == Some(nodes[i].node_id))
            && entry.route == canonical_route(nodes[i].routes[r]) by {
        assert(indexed_routes(nodes).contains(entry) <==> all.contains(entry));
        if all.contains(entry) {
            let (i, r) = choose|i: int, r: int|
                0 <= i < ordered.len() && 0 <= r < ordered[i].routes.len() && ordered[i].node_id
                    == entry.node_id && (#[trigger] ordered[i].routes[r]).advertised_by
                    == ordered[i].node_id && (ordered[i].routes[r].via is None
                    || ordered[i].routes[r].via == Some(ordered[i].node_id)) && entry.route
                    == canonical_route(ordered[i].routes[r]);
            assert(ordered.contains(ordered[i]));
            assert(nodes.contains(ordered[i]));
            let k = choose|k: int| 0 <= k < nodes.len() && nodes[k] == ordered[i];
            assert(nodes[k].routes[r] == ordered[i].routes[r]);
        }
        if exists|i: int, r: int|
            0 <= i < nodes.len() && 0 <= r < nodes[i].routes.len() && nodes[i].node_id
                == entry.node_id && (#[trigger] nodes[i].routes[r]).advertised_by
                == nodes[i].node_id && (nodes[i].routes[r].via is None || nodes[i].routes[r].via
                == Some(nodes[i].node_id)) && entry.route == canonical_route(nodes[i].routes[r]) {
            let (i, r) = choose|i: int, r: int|
                0 <= i < nodes.len() && 0 <= r < nodes[i].routes.len() && nodes[i].node_id
                    == entry.node_id && (#[trigger] nodes[i].routes[r]).advertised_by
                    == nodes[i].node_id && (nodes[i].routes[r].via is None
                    || nodes[i].routes[r].via == Some(nodes[i].node_id)) && entry.route
                    == canonical_route(nodes[i].routes[r]);
            assert(nodes.contains(nodes[i]));
            assert(ordered.contains(nodes[i]));
            let k = choose|k: int| 0 <= k < ordered.len() && ordered[k] == nodes[i];
            assert(ordered[k].routes[r] == nodes[i].routes[r]);
        }
    }
}

/// A destination that is the address of no node is reached exactly where some route of some node can
/// be used for it. What is given then is the owner of such a route, which is active, with that route
/// alone: in its canonical form where there are no access rules, and else narrowed to the destination.
pub proof fn law_destination_is_reached_by_a_route(
    source: NodeRecordView,
    nodes: Seq<NodeRecordView>,
    active: Seq<NodeRecordView>,
    destination: IpAddr,
    policy: ClusterPolicyView,
)
    requires
        forall|j: int| 0 <= j < nodes.len() ==> (#[trigger] nodes[j]).vpn_ip != destination,
    ensures
        destination_node(source, nodes, active, destination, policy) is Some <==> exists|
            i: int,
            r: int,
        |
            0 <= i < nodes.len() && 0 <= r < nodes[i].routes.len() && route_serves(
                source,
                active,
                destination,
                policy,
                nodes[i],
                #[trigger] nodes[i].routes[r],
            ),
        destination_node(source, nodes, active, destination, policy) matches Some(seen) ==> {
            exists|i: int, r: int|
                {
                    let route = #[trigger] nodes[i].routes[r];
                    &&& 0 <= i < nodes.len() && 0 <= r < nodes[i].routes.len()
                    &&& route_serves(source, active, destination, policy, nodes[i], route)
                    &&& seen == (NodeRecordView {
                        routes: seen.routes,
                        ..named(active, nodes[i].node_id)->0
                    })
                    &&& seen.routes.len() == 1
                    &&& seen.routes[0].cidr == (if policy.acl_rules.len() == 0 {
                        route.cidr.canonical()
                    } else {
                        match destination {
                            IpAddr::V4(addr) => Cidr::V4 { addr, prefix: 32 },
                            IpAddr::V6(addr) => Cidr::V6 { addr, prefix: 128 },
                        }
                    })
                    &&& policy.acl_rules.len() == 0 ==> seen.routes[0].id == route.id
                    &&& seen.routes[0].advertised_by == nodes[i].node_id
                    &&& seen.routes[0].via == route.via
                    &&& seen.routes[0].metric == route.metric
                    &&& seen.routes[0].tags == route.tags
                }
        },
{
    let ordered = nodes_in_order(nodes);
    let n = ordered.len();
    let routes = indexed_routes(nodes);
    let f = |i: int|
        if ordered[i].vpn_ip == destination {
            Some(ordered[i].node_id)
        } else {
            None
        };
    let g = |i: int| reached_through(source, active, routes[i], destination, policy);
    lemma_ordered_members(nodes);
    lemma_indexed_members(nodes);
    crate::lists::lemma_first_in_none(n, f);
    assert forall|i: int| 0 <= i < n implies (#[trigger] f(i)) is None by {
        assert(ordered.contains(ordered[i]));
        assert(nodes.contains(ordered[i]));
        let k = choose|k: int| 0 <= k < nodes.len() && nodes[k] == ordered[i];
        assert(nodes[k].vpn_ip != destination);
    }
    assert(address_owner(ordered, destination, n) is None);
    crate::lists::lemma_first_in_none(routes.len(), g);
    if destination_node(source, nodes, active, destination, policy) is Some {
        let at = lemma_first_in_found(routes.len(), g);
        let entry = routes[at];
        assert(routes.contains(entry));
        let (i, r) = choose|i: int, r: int|
            0 <= i < nodes.len() && 0 <= r < nodes[i].routes.len() && nodes[i].node_id
                == entry.node_id && (#[trigger] nodes[i].routes[r]).advertised_by
                == nodes[i].node_id && (nodes[i].routes[r].via is None || nodes[i].routes[r].via
                == Some(nodes[i].node_id)) && entry.route == canonical_route(nodes[i].routes[r]);
        crate::net::lemma_cidr_bounds(nodes[i].routes[r].cidr);
        crate::nodes::lemma_node_named(active, entry.node_id, active.len());
        assert(route_serves(source, active, destination, policy, nodes[i], nodes[i].routes[r]));
    }
    if exists|i: int, r: int|
        0 <= i < nodes.len() && 0 <= r < nodes[i].routes.len() && route_serves(
            source,
            active,
            destination,
            policy,
            nodes[i],
            #[trigger] nodes[i].routes[r],
        ) {
        let (i, r) = choose|i: int, r: int|
            0 <= i < nodes.len() && 0 <= r < nodes[i].routes.len() && route_serves(
                source,
                active,
                destination,
                policy,
                nodes[i],
                #[trigger] nodes[i].routes[r],
            );
        let entry = IndexedOverlayRouteView {
            node_id: nodes[i].node_id,
            route: canonical_route(nodes[i].routes[r]),
        };
        assert(nodes[i].routes[r].advertised_by == nodes[i].node_id);
        assert(routes.contains(entry));
        let at = choose|at: int| 0 <= at < routes.len() && routes[at] == entry;
        crate::net::lemma_cidr_bounds(nodes[i].routes[r].cidr);
        crate::nodes::lemma_node_named(active, entry.node_id, active.len());
        assert(g(at) is Some);
    }
}

} // verus!
