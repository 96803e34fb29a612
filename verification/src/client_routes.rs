//! What nodes are shown of clients: those that they serve themselves, and the routes to the
//! others through their gateways.

use vstd::prelude::*;

use crate::acl::{acl_filter_peer, visible_peer};
use crate::gateway::{
    chosen_by, client_route, gateway_route_for_client, nodes_seen_by_client, offered_gateways,
    reaches_within, seen_by_client, select_client_gateways,
};
use crate::ids::{role_is_client, sorted_names, NameSet, NodeId};
use crate::lists::{first_in, gathered, lemma_first_in_extends};
use crate::map::{held, OrderedMap};
use crate::net::{Cidr, IpAddr};
use crate::nodes::{
    filter_served_endpoint_candidates, find_entry, find_node, named, served_node,
};
use crate::order::{key_view, keys_of, keys_view, sort_records, sorted_by, KeyPart};
use crate::route_table::{
    build_table, by_network, insert_preferred_routes, law_listing_by_network_keeps_the_routes,
    law_preferred_routes_are_collected, law_table_is_of_its_routes, list_by_network,
    serves_as_well, table_of, with_preferred_routes,
};
use crate::routes::{text_key, text_sort_key};
use crate::time::Timestamp;
use crate::types::{
    lemma_views_push, opt_view, ref_view, views, ClientGatewaySelection,
    ClientGatewaySelectionView, ClusterPolicy, ClusterPolicyView, NodeHealth, NodeHealthView,
    NodeRecord, NodeRecordView, Record, Route, RouteView,
};

verus! {

/// The identifiers of nodes.
pub open spec fn ids_of(nodes: Seq<NodeRecordView>) -> Seq<Seq<char>> {
    Seq::new(nodes.len(), |i: int| nodes[i].node_id)
}

/// The gateway that serves a client: the one it has chosen where that is offered, else the first.
pub open spec fn serving_gateway(
    gateways: Seq<Seq<char>>,
    selections: Map<Seq<Seq<char>>, ClientGatewaySelectionView>,
    client_id: Seq<char>,
) -> Option<Seq<char>> {
    let chosen = chosen_by(selections, client_id);
    if chosen is Some && gateways.contains(chosen->0) {
        chosen
    } else if gateways.len() > 0 {
        Some(gateways[0])
    } else {
        None
    }
}

fn has_id(nodes: &Vec<NodeRecord>, id: &NodeId) -> (r: bool)
    ensures
        r == ids_of(views(nodes@)).contains(id@),
{
    let ghost ids = ids_of(views(nodes@));
    let mut i: usize = 0;
    while i < nodes.len()
        invariant
            i <= nodes@.len(),
            ids == ids_of(views(nodes@)),
            forall|k: int| 0 <= k < i ==> #[trigger] ids[k] != id@,
        decreases nodes@.len() - i,
    {
        assert(ids[i as int] == nodes@[i as int]@.node_id);
        if nodes[i].node_id == *id {
            return true;
        }
        i = i + 1;
    }
    false
}

fn gateway_serving(
    gateways: &Vec<NodeRecord>,
    selections: &OrderedMap<NodeId, ClientGatewaySelection>,
    client_id: &NodeId,
) -> (r: Option<NodeId>)
    requires
        selections.wf(),
    ensures
        opt_view(r) == serving_gateway(ids_of(views(gateways@)), held(selections@), client_id@),
{
    let ghost ids = ids_of(views(gateways@));
    if let Some(selection) = find_entry(selections, client_id) {
        if has_id(gateways, &selection.gateway_node_id) {
            return Some(selection.gateway_node_id.clone());
        }
    }
    if gateways.len() > 0 {
        assert(ids[0] == gateways@[0]@.node_id);
        return Some(gateways[0].node_id.clone());
    }
    None
}

/// What is served of the clients through a gateway: a route to each that the gateway serves.
pub open spec fn routes_to_clients(
    clients: Seq<NodeRecordView>,
    gateways: Seq<Seq<char>>,
    selections: Map<Seq<Seq<char>>, ClientGatewaySelectionView>,
    gateway_id: Seq<char>,
    n: nat,
) -> Seq<RouteView> {
    gathered(
        clients,
        |client: NodeRecordView|
            if serving_gateway(gateways, selections, client.node_id) == Some(gateway_id) {
                Some(client_route(gateway_id, client))
            } else {
                None
            },
        n,
    )
}

fn list_routes_to_clients(
    clients: &Vec<NodeRecord>,
    gateways: &Vec<NodeRecord>,
    selections: &OrderedMap<NodeId, ClientGatewaySelection>,
    gateway_id: &NodeId,
) -> (r: Vec<Route>)
    requires
        selections.wf(),
    ensures
        views(r@) == routes_to_clients(
            views(clients@),
            ids_of(views(gateways@)),
            held(selections@),
            gateway_id@,
            clients@.len(),
        ),
{
    let ghost all = views(clients@);
    let ghost ids = ids_of(views(gateways@));
    let mut r: Vec<Route> = Vec::new();
    let mut i: usize = 0;
    while i < clients.len()
        invariant
            selections.wf(),
            i <= clients@.len(),
            all == views(clients@),
            ids == ids_of(views(gateways@)),
            views(r@) == routes_to_clients(all, ids, held(selections@), gateway_id@, i as nat),
        decreases clients@.len() - i,
    {
        broadcast use lemma_views_push;

        assert(all[i as int] == clients@[i as int]@);
        if let Some(serving) = gateway_serving(gateways, selections, &clients[i].node_id) {
            if serving == *gateway_id {
                r.push(gateway_route_for_client(gateway_id, &clients[i]));
            }
        }
        i = i + 1;
    }
    r
}

/// The position of the first node of a list with an identifier.
pub open spec fn client_position(clients: Seq<NodeRecordView>, id: Seq<char>) -> Option<int> {
    first_in(
        clients.len(),
        |i: int|
            if clients[i].node_id == id {
                Some(i)
            } else {
                None
            },
    )
}

/// The list with a node in the place of the one with its identifier, or as a new one.
pub open spec fn with_client(clients: Seq<NodeRecordView>, client: NodeRecordView) -> Seq<
    NodeRecordView,
> {
    match client_position(clients, client.node_id) {
        Some(i) => clients.update(i, client),
        None => clients.push(client),
    }
}

/// The clients among the first `n` peers that the source may see; where several have one
/// identifier, the last of them.
pub open spec fn seen_clients(
    source: NodeRecordView,
    peers: Seq<NodeRecordView>,
    policy: ClusterPolicyView,
    n: nat,
) -> Seq<NodeRecordView>
    decreases n,
{
    if n == 0 {
        Seq::empty()
    } else {
        let before = seen_clients(source, peers, policy, (n - 1) as nat);
        if role_is_client(peers[n - 1].role) {
            match visible_peer(source, peers[n - 1], policy.acl_rules) {
                Some(visible) => with_client(before, visible),
                None => before,
            }
        } else {
            before
        }
    }
}

/// The clients that the source may see, in the order of their identifiers.
pub open spec fn visible_clients(
    source: NodeRecordView,
    peers: Seq<NodeRecordView>,
    policy: ClusterPolicyView,
) -> Seq<NodeRecordView> {
    sorted_by(
        seen_clients(source, peers, policy, peers.len()),
        |client: NodeRecordView| text_key(client.node_id),
    )
}

fn put_client(clients: &mut Vec<NodeRecord>, client: NodeRecord)
    ensures
        views(final(clients)@) == with_client(views(old(clients)@), client@),
{
    let ghost all = views(clients@);
    let ghost f = |i: int|
        if all[i].node_id == client@.node_id {
            Some(i)
        } else {
            None
        };
    let mut i: usize = 0;
    while i < clients.len()
        invariant
            clients@ == old(clients)@,
            i <= clients@.len(),
            all == views(clients@),
            f == (|i: int|
                if all[i].node_id == client@.node_id {
                    Some(i)
                } else {
                    None
                }),
            first_in(i as nat, f) is None,
        decreases clients@.len() - i,
    {
        assert(all[i as int] == clients@[i as int]@);
        if clients[i].node_id == client.node_id {
            proof {
                lemma_first_in_extends((i + 1) as nat, all.len(), f);
            }
            clients.set(i, client);
            assert(views(clients@) =~= all.update(i as int, client@));
            return ;
        }
        i = i + 1;
    }
    clients.push(client);
    assert(views(clients@) =~= all.push(client@));
}

/// The nodes in the order of their identifiers.
pub fn sort_nodes(nodes: &Vec<NodeRecord>) -> (r: Vec<NodeRecord>)
    ensures
        views(r@) == sorted_by(views(nodes@), |node: NodeRecordView| text_key(node.node_id)),
{
    let ghost all = views(nodes@);
    let mut keys: Vec<Vec<KeyPart>> = Vec::new();
    let mut i: usize = 0;
    while i < nodes.len()
        invariant
            i <= nodes@.len(),
            keys@.len() == i,
            forall|k: int|
                0 <= k < i ==> key_view((#[trigger] keys@[k])@) == text_key(nodes@[k]@.node_id),
        decreases nodes@.len() - i,
    {
        keys.push(text_sort_key(nodes[i].node_id.as_str()));
        i = i + 1;
    }
    assert(keys_view(keys@) =~= keys_of(all, |node: NodeRecordView| text_key(node.node_id)));
    sort_records(nodes, &keys)
}

fn list_visible_clients(source: &NodeRecord, peers: &Vec<NodeRecord>, policy: &ClusterPolicy) -> (r:
    Vec<NodeRecord>)
    ensures
        views(r@) == visible_clients(source@, views(peers@), policy@),
{
    let ghost all = views(peers@);
    let mut seen: Vec<NodeRecord> = Vec::new();
    let mut i: usize = 0;
    assert(views(seen@) =~= Seq::empty());
    while i < peers.len()
        invariant
            i <= peers@.len(),
            all == views(peers@),
            views(seen@) == seen_clients(source@, all, policy@, i as nat),
        decreases peers@.len() - i,
    {
        assert(all[i as int] == peers@[i as int]@);
        if peers[i].role.is_client() {
            if let Some(visible) = acl_filter_peer(source, &peers[i], policy) {
                put_client(&mut seen, visible);
            }
        }
        i = i + 1;
    }
    sort_nodes(&seen)
}

/// What a node is shown of a peer.
pub open spec fn shown_peer(
    source: NodeRecordView,
    peer: NodeRecordView,
    clients: Seq<NodeRecordView>,
    gateways: Seq<Seq<char>>,
    selections: Map<Seq<Seq<char>>, ClientGatewaySelectionView>,
    policy: ClusterPolicyView,
    now: Timestamp,
) -> Option<NodeRecordView> {
    if peer.node_id == source.node_id {
        None
    } else if role_is_client(peer.role) {
        match named(clients, peer.node_id) {
            Some(client) => if serving_gateway(gateways, selections, peer.node_id) == Some(
                source.node_id,
            ) {
                Some(served_node(client, now, policy))
            } else {
                None
            },
            None => None,
        }
    } else {
        match visible_peer(source, peer, policy.acl_rules) {
            None => None,
            Some(visible) => {
                let added = routes_to_clients(
                    clients,
                    gateways,
                    selections,
                    visible.node_id,
                    clients.len(),
                );
                let routes = if added.len() == 0 {
                    visible.routes
                } else {
                    by_network(
                        with_preferred_routes(
                            table_of(visible.routes, visible.routes.len()),
                            added,
                            added.len(),
                        ),
                    )
                };
                Some(served_node(NodeRecordView { routes, ..visible }, now, policy))
            },
        }
    }
}

/// What a node is shown of its peers.
pub open spec fn node_view(
    source: NodeRecordView,
    peers: Seq<NodeRecordView>,
    health: Map<Seq<Seq<char>>, NodeHealthView>,
    selections: Map<Seq<Seq<char>>, ClientGatewaySelectionView>,
    policy: ClusterPolicyView,
    now: Timestamp,
) -> Seq<NodeRecordView> {
    let gateways = ids_of(offered_gateways(peers, health, now, policy));
    let clients = visible_clients(source, peers, policy);
    gathered(
        peers,
        |peer: NodeRecordView|
            shown_peer(source, peer, clients, gateways, selections, policy, now),
        peers.len(),
    )
}

fn show_peer(
    source: &NodeRecord,
    peer: &NodeRecord,
    clients: &Vec<NodeRecord>,
    gateways: &Vec<NodeRecord>,
    selections: &OrderedMap<NodeId, ClientGatewaySelection>,
    policy: &ClusterPolicy,
    now: Timestamp,
) -> (r: Option<NodeRecord>)
    requires
        selections.wf(),
    ensures
        opt_view(r) == shown_peer(
            source@,
            peer@,
            views(clients@),
            ids_of(views(gateways@)),
            held(selections@),
            policy@,
            now,
        ),
{
    if peer.node_id == source.node_id {
        return None;
    }
    if peer.role.is_client() {
        let client = match find_node(clients, &peer.node_id) {
            Some(client) => client,
            None => return None,
        };
        return match gateway_serving(gateways, selections, &peer.node_id) {
            Some(serving) => {
                if serving == source.node_id {
                    Some(filter_served_endpoint_candidates(client.duplicate(), now, policy))
                } else {
                    None
                }
            },
            None => None,
        };
    }
    let visible = match acl_filter_peer(source, peer, policy) {
        Some(visible) => visible,
        None => return None,
    };
    let added = list_routes_to_clients(clients, gateways, selections, &visible.node_id);
    let mut shown = visible;
    if added.len() > 0 {
        let mut table = build_table(&shown.routes);
        insert_preferred_routes(&mut table, &added);
        shown.routes = list_by_network(&table);
    }
    Some(filter_served_endpoint_candidates(shown, now, policy))
}

/// What a node is shown of its peers: the clients that it serves itself, and routes to the other
/// clients through the gateways that serve these.
pub fn node_peer_map_with_clients(
    source: &NodeRecord,
    peers: &Vec<NodeRecord>,
    health_by_node: &OrderedMap<NodeId, NodeHealth>,
    selections: &OrderedMap<NodeId, ClientGatewaySelection>,
    policy: &ClusterPolicy,
    generated_at: Timestamp,
) -> (r: Vec<NodeRecord>)
    requires
        health_by_node.wf(),
        selections.wf(),
    ensures
        views(r@) == node_view(
            source@,
            views(peers@),
            held(health_by_node@),
            held(selections@),
            policy@,
            generated_at,
        ),
{
    let ghost all = views(peers@);
    let gateways = select_client_gateways(peers, health_by_node, generated_at, policy);
    let clients = list_visible_clients(source, peers, policy);
    let ghost ids = ids_of(views(gateways@));
    let ghost seen = views(clients@);
    let ghost f = |peer: NodeRecordView|
        shown_peer(source@, peer, seen, ids, held(selections@), policy@, generated_at);
    let mut r: Vec<NodeRecord> = Vec::new();
    let mut i: usize = 0;
    while i < peers.len()
        invariant
            selections.wf(),
            i <= peers@.len(),
            all == views(peers@),
            ids == ids_of(views(gateways@)),
            seen == views(clients@),
            f == (|peer: NodeRecordView|
                shown_peer(source@, peer, seen, ids, held(selections@), policy@, generated_at)),
            views(r@) == gathered(all, f, i as nat),
        decreases peers@.len() - i,
    {
        broadcast use lemma_views_push;

        assert(all[i as int] == peers@[i as int]@);
        let shown = show_peer(
            source,
            &peers[i],
            &clients,
            &gateways,
            selections,
            policy,
            generated_at,
        );
        if let Some(peer) = shown {
            r.push(peer);
        }
        i = i + 1;
    }
    r
}

/// The clients that the source may see, as they stand.
pub open spec fn seen_in_order(
    source: NodeRecordView,
    clients: Seq<NodeRecordView>,
    policy: ClusterPolicyView,
) -> Seq<NodeRecordView> {
    gathered(
        clients,
        |client: NodeRecordView| visible_peer(source, client, policy.acl_rules),
        clients.len(),
    )
}

/// The clients that the source serves itself.
pub open spec fn direct_clients(
    source: NodeRecordView,
    seen: Seq<NodeRecordView>,
    gateways: Seq<Seq<char>>,
    selections: Map<Seq<Seq<char>>, ClientGatewaySelectionView>,
    policy: ClusterPolicyView,
    now: Timestamp,
    n: nat,
) -> Seq<NodeRecordView> {
    gathered(
        seen,
        |client: NodeRecordView|
            if serving_gateway(gateways, selections, client.node_id) == Some(source.node_id) {
                Some(served_node(client, now, policy))
            } else {
                None
            },
        n,
    )
}

/// A gateway with nothing but the routes to the clients that it serves, where it serves some that
/// the source does not serve itself.
pub open spec fn projected_for_node(
    source: NodeRecordView,
    gateway_id: Seq<char>,
    seen: Seq<NodeRecordView>,
    gateways: Seq<NodeRecordView>,
    selections: Map<Seq<Seq<char>>, ClientGatewaySelectionView>,
    policy: ClusterPolicyView,
    now: Timestamp,
) -> Option<NodeRecordView> {
    let routes = routes_to_clients(seen, ids_of(gateways), selections, gateway_id, seen.len());
    if gateway_id == source.node_id || routes.len() == 0 {
        None
    } else {
        match named(gateways, gateway_id) {
            None => None,
            Some(gateway) => match visible_peer(source, gateway, policy.acl_rules) {
                None => None,
                Some(visible) => Some(
                    served_node(
                        NodeRecordView {
                            routes: by_network(
                                with_preferred_routes(Seq::empty(), routes, routes.len()),
                            ),
                            ..visible
                        },
                        now,
                        policy,
                    ),
                ),
            },
        }
    }
}

/// The identifiers of nodes as a set.
pub open spec fn id_set(nodes: Seq<NodeRecordView>, n: nat) -> Set<Seq<char>>
    decreases n,
{
    if n == 0 {
        Set::empty()
    } else {
        id_set(nodes, (n - 1) as nat).insert(nodes[n - 1].node_id)
    }
}

/// What a node of the backbone is shown of clients: those that it serves itself, and the gateways
/// of the others, in the order of their identifiers.
pub open spec fn client_projection(
    source: NodeRecordView,
    backbone: Seq<NodeRecordView>,
    clients: Seq<NodeRecordView>,
    health: Map<Seq<Seq<char>>, NodeHealthView>,
    selections: Map<Seq<Seq<char>>, ClientGatewaySelectionView>,
    policy: ClusterPolicyView,
    now: Timestamp,
) -> Seq<NodeRecordView> {
    if clients.len() == 0 {
        Seq::empty()
    } else {
        let gateways = offered_gateways(backbone, health, now, policy);
        let seen = seen_in_order(source, clients, policy);
        let ids = sorted_names(id_set(gateways, gateways.len()));
        sorted_by(
            direct_clients(source, seen, ids_of(gateways), selections, policy, now, seen.len())
                + gathered(
                ids,
                |id: Seq<char>|
                    projected_for_node(source, id, seen, gateways, selections, policy, now),
                ids.len(),
            ),
            |node: NodeRecordView| text_key(node.node_id),
        )
    }
}

fn project_for_node(
    source: &NodeRecord,
    gateway_id: &NodeId,
    seen: &Vec<NodeRecord>,
    gateways: &Vec<NodeRecord>,
    selections: &OrderedMap<NodeId, ClientGatewaySelection>,
    policy: &ClusterPolicy,
    now: Timestamp,
) -> (r: Option<NodeRecord>)
    requires
        selections.wf(),
    ensures
        opt_view(r) == projected_for_node(
            source@,
            gateway_id@,
            views(seen@),
            views(gateways@),
            held(selections@),
            policy@,
            now,
        ),
{
    let routes = list_routes_to_clients(seen, gateways, selections, gateway_id);
    if *gateway_id == source.node_id || routes.len() == 0 {
        return None;
    }
    let gateway = match find_node(gateways, gateway_id) {
        Some(gateway) => gateway,
        None => return None,
    };
    let visible = match acl_filter_peer(source, gateway, policy) {
        Some(visible) => visible,
        None => return None,
    };
    let mut table: Vec<Route> = Vec::new();
    assert(views(table@) =~= Seq::empty());
    insert_preferred_routes(&mut table, &routes);
    let mut projected = visible;
    projected.routes = list_by_network(&table);
    Some(filter_served_endpoint_candidates(projected, now, policy))
}

fn list_direct_clients(
    source: &NodeRecord,
    seen: &Vec<NodeRecord>,
    gateways: &Vec<NodeRecord>,
    selections: &OrderedMap<NodeId, ClientGatewaySelection>,
    policy: &ClusterPolicy,
    now: Timestamp,
) -> (r: Vec<NodeRecord>)
    requires
        selections.wf(),
    ensures
        views(r@) == direct_clients(
            source@,
            views(seen@),
            ids_of(views(gateways@)),
            held(selections@),
            policy@,
            now,
            seen@.len(),
        ),
{
    let ghost all = views(seen@);
    let ghost ids = ids_of(views(gateways@));
    let mut r: Vec<NodeRecord> = Vec::new();
    let mut i: usize = 0;
    while i < seen.len()
        invariant
            selections.wf(),
            i <= seen@.len(),
            all == views(seen@),
            ids == ids_of(views(gateways@)),
            views(r@) == direct_clients(source@, all, ids, held(selections@), policy@, now, i as nat),
        decreases seen@.len() - i,
    {
        broadcast use lemma_views_push;

        assert(all[i as int] == seen@[i as int]@);
        if let Some(serving) = gateway_serving(gateways, selections, &seen[i].node_id) {
            if serving == source.node_id {
                r.push(filter_served_endpoint_candidates(seen[i].duplicate(), now, policy));
            }
        }
        i = i + 1;
    }
    r
}

/// The identifiers of nodes as a set.
pub fn gather_ids(nodes: &Vec<NodeRecord>) -> (r: NameSet)
    ensures
        r@ == id_set(views(nodes@), nodes@.len()),
{
    let ghost all = views(nodes@);
    let mut r = NameSet::new();
    let mut i: usize = 0;
    while i < nodes.len()
        invariant
            i <= nodes@.len(),
            all == views(nodes@),
            r@ == id_set(all, i as nat),
        decreases nodes@.len() - i,
    {
        assert(all[i as int] == nodes@[i as int]@);
        r.insert(nodes[i].node_id.value.clone());
        i = i + 1;
    }
    r
}

fn see_clients(source: &NodeRecord, clients: &Vec<NodeRecord>, policy: &ClusterPolicy) -> (r: Vec<
    NodeRecord,
>)
    ensures
        views(r@) == seen_in_order(source@, views(clients@), policy@),
{
    let ghost all = views(clients@);
    let ghost f = |client: NodeRecordView| visible_peer(source@, client, policy@.acl_rules);
    let mut r: Vec<NodeRecord> = Vec::new();
    let mut i: usize = 0;
    while i < clients.len()
        invariant
            i <= clients@.len(),
            all == views(clients@),
            f == (|client: NodeRecordView| visible_peer(source@, client, policy@.acl_rules)),
            views(r@) == gathered(all, f, i as nat),
        decreases clients@.len() - i,
    {
        broadcast use lemma_views_push;

        assert(all[i as int] == clients@[i as int]@);
        if let Some(visible) = acl_filter_peer(source, &clients[i], policy) {
            r.push(visible);
        }
        i = i + 1;
    }
    r
}

/// What a node of the backbone is shown of clients: those that it serves itself, and the gateways
/// of the others, with nothing but the routes to these.
pub fn node_client_route_projection(
    source: &NodeRecord,
    backbone_nodes: &Vec<NodeRecord>,
    clients: &Vec<NodeRecord>,
    health_by_node: &OrderedMap<NodeId, NodeHealth>,
    selections: &OrderedMap<NodeId, ClientGatewaySelection>,
    policy: &ClusterPolicy,
    generated_at: Timestamp,
) -> (r: Vec<NodeRecord>)
    requires
        health_by_node.wf(),
        selections.wf(),
    ensures
        views(r@) == client_projection(
            source@,
            views(backbone_nodes@),
            views(clients@),
            held(health_by_node@),
            held(selections@),
            policy@,
            generated_at,
        ),
{
    if clients.len() == 0 {
        let none: Vec<NodeRecord> = Vec::new();
        assert(views(none@) =~= Seq::empty());
        return none;
    }
    let gateways = select_client_gateways(backbone_nodes, health_by_node, generated_at, policy);
    let seen = see_clients(source, clients, policy);
    let direct = list_direct_clients(source, &seen, &gateways, selections, policy, generated_at);
    let ids = gather_ids(&gateways).sorted();
    let ghost offered = views(gateways@);
    let ghost all_seen = views(seen@);
    let ghost names = views(ids@);
    let ghost head = views(direct@);
    let ghost f = |id: Seq<char>|
        projected_for_node(source@, id, all_seen, offered, held(selections@), policy@, generated_at);
    let mut projection = direct;
    let mut i: usize = 0;
    assert(head =~= head + gathered(names, f, 0));
    while i < ids.len()
        invariant
            selections.wf(),
            i <= ids@.len(),
            offered == views(gateways@),
            all_seen == views(seen@),
            names == views(ids@),
            f == (|id: Seq<char>|
                projected_for_node(
                    source@,
                    id,
                    all_seen,
                    offered,
                    held(selections@),
                    policy@,
                    generated_at,
                )),
            views(projection@) == head + gathered(names, f, i as nat),
        decreases ids@.len() - i,
    {
        broadcast use lemma_views_push;

        let ghost so_far = views(projection@);
        assert(names[i as int] == ids@[i as int]@);
        let id = NodeId::from_string(ids[i].clone());
        let projected = project_for_node(
            source,
            &id,
            &seen,
            &gateways,
            selections,
            policy,
            generated_at,
        );
        if let Some(gateway) = projected {
            projection.push(gateway);
            assert(views(projection@) == so_far.push(gateway@));
        }
        i = i + 1;
        assert(views(projection@) =~= head + gathered(names, f, i as nat));
    }
    sort_nodes(&projection)
}

/// What a client wants changed about the gateway that it has chosen.
#[derive(Debug)]
pub enum SelectionChange {
    Keep,
    Select(ClientGatewaySelection),
    Forget,
}

/// What a [`SelectionChange`] holds.
pub enum SelectionChangeView {
    Keep,
    Select(ClientGatewaySelectionView),
    Forget,
}

impl View for SelectionChange {
    type V = SelectionChangeView;

    open spec fn view(&self) -> SelectionChangeView {
        match self {
            SelectionChange::Keep => SelectionChangeView::Keep,
            SelectionChange::Select(selection) => SelectionChangeView::Select(selection@),
            SelectionChange::Forget => SelectionChangeView::Forget,
        }
    }
}

/// The gateway that a client is to have: the requested one where it is offered, else the first
/// that is.
pub open spec fn desired_gateway(
    gateways: Seq<Seq<char>>,
    requested: Option<Seq<char>>,
) -> Option<Seq<char>> {
    if requested is Some && gateways.contains(requested->0) {
        requested
    } else if gateways.len() > 0 {
        Some(gateways[0])
    } else {
        None
    }
}

/// What is to be changed about the gateway that a client has chosen.
pub open spec fn selection_change(
    client_id: Seq<char>,
    gateways: Seq<Seq<char>>,
    requested: Option<Seq<char>>,
    previous: Option<Seq<char>>,
    now: Timestamp,
) -> SelectionChangeView {
    match desired_gateway(gateways, requested) {
        Some(gateway) => if previous == Some(gateway) {
            SelectionChangeView::Keep
        } else {
            SelectionChangeView::Select(
                ClientGatewaySelectionView {
                    client_id,
                    gateway_node_id: gateway,
                    selected_at: now,
                },
            )
        },
        None => if previous is Some {
            SelectionChangeView::Forget
        } else {
            SelectionChangeView::Keep
        },
    }
}

/// What is to be changed about the gateway that a client has chosen.
pub fn update_client_gateway_selection(
    client: &NodeRecord,
    requested_gateway: Option<&NodeId>,
    peers: &Vec<NodeRecord>,
    health_by_node: &OrderedMap<NodeId, NodeHealth>,
    selections: &OrderedMap<NodeId, ClientGatewaySelection>,
    policy: &ClusterPolicy,
    now: Timestamp,
) -> (r: SelectionChange)
    requires
        health_by_node.wf(),
        selections.wf(),
    ensures
        r@ == selection_change(
            client@.node_id,
            ids_of(
                offered_gateways(
                    seen_by_client(client@, views(peers@), policy@),
                    held(health_by_node@),
                    now,
                    policy@,
                ),
            ),
            ref_view(requested_gateway),
            chosen_by(held(selections@), client@.node_id),
            now,
        ),
{
    let visible = nodes_seen_by_client(client, peers, policy);
    let gateways = select_client_gateways(&visible, health_by_node, now, policy);
    let ghost ids = ids_of(views(gateways@));
    let accepted: Option<NodeId> = match requested_gateway {
        Some(requested) => {
            if has_id(&gateways, requested) {
                Some(requested.clone())
            } else {
                None
            }
        },
        None => None,
    };
    let desired: Option<NodeId> = match accepted {
        Some(gateway) => Some(gateway),
        None => {
            if gateways.len() > 0 {
                assert(ids[0] == gateways@[0]@.node_id);
                Some(gateways[0].node_id.clone())
            } else {
                None
            }
        },
    };
    let previous = find_entry(selections, &client.node_id);
    match desired {
        Some(gateway) => {
            let same = match previous {
                Some(selection) => selection.gateway_node_id == gateway,
                None => false,
            };
            if same {
                SelectionChange::Keep
            } else {
                SelectionChange::Select(
                    ClientGatewaySelection {
                        client_id: client.node_id.clone(),
                        gateway_node_id: gateway,
                        selected_at: now,
                    },
                )
            }
        },
        None => {
            if previous.is_some() {
                SelectionChange::Forget
            } else {
                SelectionChange::Keep
            }
        },
    }
}

/// A client comes to have a gateway that it is offered, and none where it is offered none.
pub proof fn law_selection_settles(
    client_id: Seq<char>,
    gateways: Seq<Seq<char>>,
    requested: Option<Seq<char>>,
    previous: Option<Seq<char>>,
    now: Timestamp,
    later: Timestamp,
)
    ensures
        ({
            let after = match selection_change(client_id, gateways, requested, previous, now) {
                SelectionChangeView::Keep => previous,
                SelectionChangeView::Select(selection) => Some(selection.gateway_node_id),
                SelectionChangeView::Forget => None,
            };
            &&& after is Some <==> gateways.len() > 0
            &&& after is Some ==> gateways.contains(after->0)
            &&& requested is Some && gateways.contains(requested->0) ==> after == requested
            &&& selection_change(client_id, gateways, requested, after, later)
                == SelectionChangeView::Keep
        }),
{
    if gateways.len() > 0 {
        assert(gateways.contains(gateways[0]));
    } else if requested is Some {
        assert(!gateways.contains(requested->0));
    }
}

/// A client is served by one gateway: a node that shows it as a peer of its own is the one that
/// serves it.
pub proof fn law_client_is_shown_by_its_gateway_only(
    source: NodeRecordView,
    peer: NodeRecordView,
    clients: Seq<NodeRecordView>,
    gateways: Seq<Seq<char>>,
    selections: Map<Seq<Seq<char>>, ClientGatewaySelectionView>,
    policy: ClusterPolicyView,
    now: Timestamp,
)
    requires
        role_is_client(peer.role),
        shown_peer(source, peer, clients, gateways, selections, policy, now) is Some,
    ensures
        serving_gateway(gateways, selections, peer.node_id) == Some(source.node_id),
        gateways.contains(source.node_id),
{
    if gateways.len() > 0 {
        assert(gateways.contains(gateways[0]));
    }
}

/// A client is served by the gateway that it has chosen where that one is offered, else by the one
/// that is offered first, and by none exactly where none is offered.
pub proof fn law_chosen_gateway_serves(
    gateways: Seq<Seq<char>>,
    selections: Map<Seq<Seq<char>>, ClientGatewaySelectionView>,
    client_id: Seq<char>,
)
    ensures
        serving_gateway(gateways, selections, client_id) is None <==> gateways.len() == 0,
        serving_gateway(gateways, selections, client_id) matches Some(gateway) ==> {
            &&& gateways.contains(gateway)
            &&& selections.dom().contains(seq![client_id]) && gateways.contains(
                selections[seq![client_id]].gateway_node_id,
            ) ==> gateway == selections[seq![client_id]].gateway_node_id
            &&& !(selections.dom().contains(seq![client_id]) && gateways.contains(
                selections[seq![client_id]].gateway_node_id,
            )) ==> gateway == gateways[0]
        },
{
    if gateways.len() > 0 {
        assert(gateways.contains(gateways[0]));
    }
}

/// A route leads through a gateway to one of the clients that it serves.
pub open spec fn leads_to_client(
    clients: Seq<NodeRecordView>,
    gateways: Seq<Seq<char>>,
    selections: Map<Seq<Seq<char>>, ClientGatewaySelectionView>,
    gateway_id: Seq<char>,
    route: RouteView,
) -> bool {
    &&& route.advertised_by == gateway_id
    &&& route.via == Some(gateway_id)
    &&& route.metric == 10
    &&& exists|i: int|
        0 <= i < clients.len() && serving_gateway(
            gateways,
            selections,
            (#[trigger] clients[i]).node_id,
        ) == Some(gateway_id) && route.tags == clients[i].tags && route.id == "client-"@
            + clients[i].node_id && route.cidr == (match clients[i].vpn_ip {
            IpAddr::V4(addr) => Cidr::V4 { addr, prefix: 32 },
            IpAddr::V6(addr) => Cidr::V6 { addr, prefix: 128 },
        })
}

/// Through a gateway there is a route to each client that it serves and to no other, and it leads to
/// the address of the client alone.
pub proof fn law_clients_are_reached_through_their_gateway(
    clients: Seq<NodeRecordView>,
    gateways: Seq<Seq<char>>,
    selections: Map<Seq<Seq<char>>, ClientGatewaySelectionView>,
    gateway_id: Seq<char>,
    route: RouteView,
)
    ensures
        routes_to_clients(clients, gateways, selections, gateway_id, clients.len()).contains(route)
            <==> leads_to_client(clients, gateways, selections, gateway_id, route),
{
    let f = |client: NodeRecordView|
        if serving_gateway(gateways, selections, client.node_id) == Some(gateway_id) {
            Some(client_route(gateway_id, client))
        } else {
            None
        };
    crate::lists::lemma_gathered_members(clients, f);
    let added = routes_to_clients(clients, gateways, selections, gateway_id, clients.len());
    if added.contains(route) {
        let i = choose|i: int| 0 <= i < clients.len() && f(#[trigger] clients[i]) == Some(route);
        assert(serving_gateway(gateways, selections, clients[i].node_id) == Some(gateway_id));
    }
    if leads_to_client(clients, gateways, selections, gateway_id, route) {
        let i = choose|i: int|
            0 <= i < clients.len() && serving_gateway(
                gateways,
                selections,
                (#[trigger] clients[i]).node_id,
            ) == Some(gateway_id) && route.tags == clients[i].tags && route.id == "client-"@
                + clients[i].node_id && route.cidr == (match clients[i].vpn_ip {
                IpAddr::V4(addr) => Cidr::V4 { addr, prefix: 32 },
                IpAddr::V6(addr) => Cidr::V6 { addr, prefix: 128 },
            });
        assert(client_route(gateway_id, clients[i]) =~= route);
        assert(f(clients[i]) == Some(route));
    }
}

/// What a node is shown of a peer. Of itself it is shown nothing, and of a node exactly what the
/// access rules let it see. Such a node is shown with its permitted routes and with a route to each
/// client that it serves, and with its current candidates. A client is shown exactly where it is
/// among those that the node may see and the node is the gateway that serves it.
pub proof fn law_peer_is_shown_as_permitted(
    source: NodeRecordView,
    peer: NodeRecordView,
    clients: Seq<NodeRecordView>,
    gateways: Seq<Seq<char>>,
    selections: Map<Seq<Seq<char>>, ClientGatewaySelectionView>,
    policy: ClusterPolicyView,
    now: Timestamp,
)
    ensures
        ({
            let shown = shown_peer(source, peer, clients, gateways, selections, policy, now);
            let seen = visible_peer(source, peer, policy.acl_rules);
            &&& peer.node_id == source.node_id ==> shown is None
            &&& peer.node_id != source.node_id && peer.role != "client"@ ==> {
                &&& shown is Some <==> seen is Some
                &&& shown is Some ==> {
                    let served = served_node(seen->0, now, policy);
                    &&& shown->0 == NodeRecordView { routes: shown->0.routes, ..served }
                    &&& forall|route: RouteView| #[trigger]
                        shown->0.routes.contains(route) ==> seen->0.routes.contains(route)
                            || leads_to_client(
                            clients,
                            gateways,
                            selections,
                            seen->0.node_id,
                            route,
                        )
                    &&& forall|i: int|
                        0 <= i < seen->0.routes.len() ==> reaches_within(
                            shown->0.routes,
                            (#[trigger] seen->0.routes[i]).cidr,
                            u32::MAX,
                        )
                    &&& forall|route: RouteView| #[trigger]
                        leads_to_client(
                            clients,
                            gateways,
                            selections,
                            seen->0.node_id,
                            route,
                        ) ==> reaches_within(shown->0.routes, route.cidr, 10)
                }
            }
            &&& peer.node_id != source.node_id && peer.role == "client"@ ==> {
                &&& shown is Some <==> (exists|i: int|
                    0 <= i < clients.len() && (#[trigger] clients[i]).node_id == peer.node_id)
                    && serving_gateway(gateways, selections, peer.node_id) == Some(source.node_id)
                &&& shown is Some ==> exists|i: int|
                    0 <= i < clients.len() && (#[trigger] clients[i]).node_id == peer.node_id
                        && shown->0 == served_node(clients[i], now, policy)
            }
        }),
{
    let shown = shown_peer(source, peer, clients, gateways, selections, policy, now);
    if peer.node_id != source.node_id && peer.role == "client"@ {
        crate::nodes::lemma_node_named(clients, peer.node_id, clients.len());
        if named(clients, peer.node_id) is Some {
            let i = choose|i: int|
                0 <= i < clients.len() && clients[i] == named(clients, peer.node_id)->0;
            assert(clients[i].node_id == peer.node_id);
        }
    } else if peer.node_id != source.node_id && visible_peer(
        source,
        peer,
        policy.acl_rules,
    ) is Some {
        let seen = visible_peer(source, peer, policy.acl_rules)->0;
        lemma_routes_with_clients(seen, clients, gateways, selections);
        assert(shown->0.routes == routes_with_clients(seen, clients, gateways, selections));
        assert(shown->0.endpoint_candidates == served_node(seen, now, policy).endpoint_candidates);
    }
}

/// The routes of a node and those to the clients that it serves.
pub open spec fn routes_with_clients(
    seen: NodeRecordView,
    clients: Seq<NodeRecordView>,
    gateways: Seq<Seq<char>>,
    selections: Map<Seq<Seq<char>>, ClientGatewaySelectionView>,
) -> Seq<RouteView> {
    let added = routes_to_clients(clients, gateways, selections, seen.node_id, clients.len());
    if added.len() == 0 {
        seen.routes
    } else {
        by_network(
            with_preferred_routes(
                table_of(seen.routes, seen.routes.len()),
                added,
                added.len(),
            ),
        )
    }
}

proof fn lemma_routes_with_clients(
    seen: NodeRecordView,
    clients: Seq<NodeRecordView>,
    gateways: Seq<Seq<char>>,
    selections: Map<Seq<Seq<char>>, ClientGatewaySelectionView>,
)
    ensures
        ({
            let routes = routes_with_clients(seen, clients, gateways, selections);
            &&& forall|route: RouteView| #[trigger]
                routes.contains(route) ==> seen.routes.contains(route) || leads_to_client(
                    clients,
                    gateways,
                    selections,
                    seen.node_id,
                    route,
                )
            &&& forall|i: int|
                0 <= i < seen.routes.len() ==> reaches_within(
                    routes,
                    (#[trigger] seen.routes[i]).cidr,
                    u32::MAX,
                )
            &&& forall|route: RouteView| #[trigger]
                leads_to_client(clients, gateways, selections, seen.node_id, route)
                    ==> reaches_within(routes, route.cidr, 10)
        }),
{
    let id = seen.node_id;
    let added = routes_to_clients(clients, gateways, selections, id, clients.len());
    assert forall|route: RouteView| #[trigger]
        leads_to_client(clients, gateways, selections, id, route) == added.contains(route) by {
        law_clients_are_reached_through_their_gateway(clients, gateways, selections, id, route);
    }
    if added.len() == 0 {
        assert forall|i: int| 0 <= i < seen.routes.len() implies reaches_within(
            seen.routes,
            (#[trigger] seen.routes[i]).cidr,
            u32::MAX,
        ) by {
            assert(seen.routes[i].cidr == seen.routes[i].cidr);
        }
        assert forall|route: RouteView| #[trigger]
            leads_to_client(clients, gateways, selections, id, route) implies reaches_within(
            seen.routes,
            route.cidr,
            10,
        ) by {
            assert(added.contains(route));
        }
    } else {
        let own = table_of(seen.routes, seen.routes.len());
        let table = with_preferred_routes(own, added, added.len());
        let routes = by_network(table);
        law_table_is_of_its_routes(seen.routes, seen.routes.len());
        law_preferred_routes_are_collected(own, added, added.len());
        law_listing_by_network_keeps_the_routes(table);
        assert forall|route: RouteView| #[trigger] routes.contains(
            route,
        ) implies seen.routes.contains(route) || leads_to_client(
            clients,
            gateways,
            selections,
            id,
            route,
        ) by {
            assert(table.contains(route));
            if own.contains(route) {
                let i = choose|i: int|
                    0 <= i < seen.routes.len() && #[trigger] seen.routes[i] == route;
                assert(seen.routes[i] == route);
            } else {
                let i = choose|i: int| 0 <= i < added.len() && #[trigger] added[i] == route;
                assert(added[i] == route);
                assert(added.contains(route));
            }
        }
        assert forall|i: int| 0 <= i < seen.routes.len() implies reaches_within(
            routes,
            (#[trigger] seen.routes[i]).cidr,
            u32::MAX,
        ) by {
            let k = choose|k: int|
                0 <= k < own.len() && (#[trigger] own[k]).cidr == seen.routes[i].cidr;
            assert(own.contains(own[k]));
            lemma_listed_reach(table, own[k]);
            let m = choose|m: int|
                0 <= m < routes.len() && (#[trigger] routes[m]).cidr == own[k].cidr
                    && routes[m].metric <= own[k].metric;
            assert(routes[m].cidr == seen.routes[i].cidr);
        }
        assert forall|route: RouteView| #[trigger]
            leads_to_client(clients, gateways, selections, id, route) implies reaches_within(
            routes,
            route.cidr,
            10,
        ) by {
            assert(added.contains(route));
            let i = choose|i: int| 0 <= i < added.len() && added[i] == route;
            assert(serves_as_well(table, added[i]));
            lemma_listed_reach(table, route);
        }
    }
}

proof fn lemma_listed_reach(table: Seq<RouteView>, route: RouteView)
    requires
        serves_as_well(table, route),
    ensures
        reaches_within(by_network(table), route.cidr, route.metric),
{
    law_listing_by_network_keeps_the_routes(table);
    let i = choose|i: int|
        0 <= i < table.len() && (#[trigger] table[i]).cidr == route.cidr && (table[i].metric
            < route.metric || (table[i].metric == route.metric && !crate::text::text_lt(
            route.id,
            table[i].id,
        )));
    assert(table.contains(table[i]));
    assert(by_network(table).contains(table[i]));
    let k = choose|k: int| 0 <= k < by_network(table).len() && by_network(table)[k] == table[i];
    assert(by_network(table)[k].cidr == route.cidr);
}

/// A node is shown exactly what it is shown of each of its peers.
pub proof fn law_node_is_shown_its_peers(
    source: NodeRecordView,
    peers: Seq<NodeRecordView>,
    health: Map<Seq<Seq<char>>, NodeHealthView>,
    selections: Map<Seq<Seq<char>>, ClientGatewaySelectionView>,
    policy: ClusterPolicyView,
    now: Timestamp,
    node: NodeRecordView,
)
    ensures
        ({
            let gateways = ids_of(offered_gateways(peers, health, now, policy));
            let clients = visible_clients(source, peers, policy);
            node_view(source, peers, health, selections, policy, now).contains(node) <==> exists|
                i: int,
            |
                0 <= i < peers.len() && shown_peer(
                    source,
                    #[trigger] peers[i],
                    clients,
                    gateways,
                    selections,
                    policy,
                    now,
                ) == Some(node)
        }),
{
    let gateways = ids_of(offered_gateways(peers, health, now, policy));
    let clients = visible_clients(source, peers, policy);
    let f = |peer: NodeRecordView|
        shown_peer(source, peer, clients, gateways, selections, policy, now);
    crate::lists::lemma_gathered_members(peers, f);
    if node_view(source, peers, health, selections, policy, now).contains(node) {
        let i = choose|i: int| 0 <= i < peers.len() && f(#[trigger] peers[i]) == Some(node);
        assert(shown_peer(source, peers[i], clients, gateways, selections, policy, now) == Some(
            node,
        ));
    }
    if exists|i: int|
        0 <= i < peers.len() && shown_peer(
            source,
            #[trigger] peers[i],
            clients,
            gateways,
            selections,
            policy,
            now,
        ) == Some(node) {
        let i = choose|i: int|
            0 <= i < peers.len() && shown_peer(
                source,
                #[trigger] peers[i],
                clients,
                gateways,
                selections,
                policy,
                now,
            ) == Some(node);
        assert(f(peers[i]) == Some(node));
    }
}

proof fn lemma_seen_clients(
    source: NodeRecordView,
    peers: Seq<NodeRecordView>,
    policy: ClusterPolicyView,
    n: nat,
)
    requires
        n <= peers.len(),
    ensures
        forall|client: NodeRecordView| #[trigger]
            seen_clients(source, peers, policy, n).contains(client) ==> exists|i: int|
                0 <= i < n && (#[trigger] peers[i]).role == "client"@ && visible_peer(
                    source,
                    peers[i],
                    policy.acl_rules,
                ) == Some(client),
        forall|i: int|
            0 <= i < n && (#[trigger] peers[i]).role == "client"@ && visible_peer(
                source,
                peers[i],
                policy.acl_rules,
            ) is Some ==> has_identifier(seen_clients(source, peers, policy, n), peers[i].node_id),
    decreases n,
{
    if n > 0 {
        lemma_seen_clients(source, peers, policy, (n - 1) as nat);
        let before = seen_clients(source, peers, policy, (n - 1) as nat);
        let all = seen_clients(source, peers, policy, n);
        let peer = peers[n - 1];
        let seen = visible_peer(source, peer, policy.acl_rules);
        if peer.role == "client"@ && seen is Some {
            let f = |i: int|
                if before[i].node_id == seen->0.node_id {
                    Some(i)
                } else {
                    None
                };
            assert(seen->0.node_id == peer.node_id);
            assert(all == with_client(before, seen->0));
            if first_in(before.len(), f) is Some {
                let at = crate::lists::lemma_first_in_found(before.len(), f);
                assert(all == before.update(at, seen->0));
                assert(all[at].node_id == peer.node_id);
                assert forall|id: Seq<char>| has_identifier(
                    before,
                    id,
                ) implies #[trigger] has_identifier(all, id) by {
                    let k = choose|k: int|
                        0 <= k < before.len() && (#[trigger] before[k]).node_id == id;
                    assert(all[k].node_id == id);
                }
                assert forall|client: NodeRecordView| #[trigger] all.contains(
                    client,
                ) implies before.contains(client) || client == seen->0 by {
                    let k = choose|k: int| 0 <= k < all.len() && all[k] == client;
                    if k != at {
                        assert(before[k] == client);
                    }
                }
            } else {
                assert(all == before.push(seen->0));
                assert(all[before.len() as int].node_id == peer.node_id);
                assert forall|id: Seq<char>| has_identifier(
                    before,
                    id,
                ) implies #[trigger] has_identifier(all, id) by {
                    let k = choose|k: int|
                        0 <= k < before.len() && (#[trigger] before[k]).node_id == id;
                    assert(all[k].node_id == id);
                }
                assert forall|client: NodeRecordView| #[trigger] all.contains(
                    client,
                ) implies before.contains(client) || client == seen->0 by {
                    let k = choose|k: int| 0 <= k < all.len() && all[k] == client;
                    if k < before.len() {
                        assert(before[k] == client);
                    }
                }
            }
            assert forall|client: NodeRecordView| #[trigger] all.contains(client) implies exists|
                i: int,
            |
                0 <= i < n && (#[trigger] peers[i]).role == "client"@ && visible_peer(
                    source,
                    peers[i],
                    policy.acl_rules,
                ) == Some(client) by {
                if before.contains(client) {
                    let i = choose|i: int|
                        0 <= i < n - 1 && (#[trigger] peers[i]).role == "client"@ && visible_peer(
                            source,
                            peers[i],
                            policy.acl_rules,
                        ) == Some(client);
                    assert(peers[i].role == "client"@);
                } else {
                    assert(peers[n - 1].role == "client"@);
                }
            }
        }
    }
}

/// A node with the identifier is among them.
pub open spec fn has_identifier(nodes: Seq<NodeRecordView>, id: Seq<char>) -> bool {
    exists|k: int| 0 <= k < nodes.len() && (#[trigger] nodes[k]).node_id == id
}

/// The clients that a node may see are clients among its peers that the access rules let it see, each
/// as they let it be seen; there is one for each such client.
pub proof fn law_seen_clients_are_permitted(
    source: NodeRecordView,
    peers: Seq<NodeRecordView>,
    policy: ClusterPolicyView,
)
    ensures
        forall|client: NodeRecordView| #[trigger]
            visible_clients(source, peers, policy).contains(client) ==> exists|i: int|
                0 <= i < peers.len() && (#[trigger] peers[i]).role == "client"@ && visible_peer(
                    source,
                    peers[i],
                    policy.acl_rules,
                ) == Some(client),
        forall|i: int|
            0 <= i < peers.len() && (#[trigger] peers[i]).role == "client"@ && visible_peer(
                source,
                peers[i],
                policy.acl_rules,
            ) is Some ==> has_identifier(visible_clients(source, peers, policy), peers[i].node_id),
{
    let seen = seen_clients(source, peers, policy, peers.len());
    let key = |client: NodeRecordView| text_key(client.node_id);
    lemma_seen_clients(source, peers, policy, peers.len());
    crate::order::lemma_sorted_by(seen, key);
    let all = visible_clients(source, peers, policy);
    assert forall|client: NodeRecordView| #[trigger] all.contains(client) implies exists|i: int|
        0 <= i < peers.len() && (#[trigger] peers[i]).role == "client"@ && visible_peer(
            source,
            peers[i],
            policy.acl_rules,
        ) == Some(client) by {
        assert(seen.contains(client));
    }
    assert forall|i: int|
        0 <= i < peers.len() && (#[trigger] peers[i]).role == "client"@ && visible_peer(
            source,
            peers[i],
            policy.acl_rules,
        ) is Some implies has_identifier(all, peers[i].node_id) by {
        assert(has_identifier(seen, peers[i].node_id));
        let k = choose|k: int|
            0 <= k < seen.len() && (#[trigger] seen[k]).node_id == peers[i].node_id;
        assert(seen.contains(seen[k]));
        assert(all.contains(seen[k]));
        let m = choose|m: int| 0 <= m < all.len() && all[m] == seen[k];
        assert(all[m].node_id == peers[i].node_id);
    }
}

/// What a node of the overlay is told of clients. Each client that it may see and serves itself is
/// there, as it may be served. Each other gateway that it may see and that serves such a client is
/// there with the routes to these clients and no others. Nothing else is there.
pub proof fn law_overlay_node_is_told_of_clients(
    source: NodeRecordView,
    backbone: Seq<NodeRecordView>,
    clients: Seq<NodeRecordView>,
    health: Map<Seq<Seq<char>>, NodeHealthView>,
    selections: Map<Seq<Seq<char>>, ClientGatewaySelectionView>,
    policy: ClusterPolicyView,
    now: Timestamp,
    node: NodeRecordView,
)
    ensures
        ({
            let gateways = offered_gateways(backbone, health, now, policy);
            let seen = seen_in_order(source, clients, policy);
            client_projection(
                source,
                backbone,
                clients,
                health,
                selections,
                policy,
                now,
            ).contains(node) <==> clients.len() > 0 && ((exists|i: int|
                0 <= i < seen.len() && serving_gateway(
                    ids_of(gateways),
                    selections,
                    (#[trigger] seen[i]).node_id,
                ) == Some(source.node_id) && node == served_node(seen[i], now, policy)) || exists|
                k: int,
            |
                0 <= k < gateways.len() && projected_for_node(
                    source,
                    (#[trigger] gateways[k]).node_id,
                    seen,
                    gateways,
                    selections,
                    policy,
                    now,
                ) == Some(node))
        }),
{
    if clients.len() > 0 {
        let gateways = offered_gateways(backbone, health, now, policy);
        let seen = seen_in_order(source, clients, policy);
        let set = id_set(gateways, gateways.len());
        let ids = sorted_names(set);
        let f = |client: NodeRecordView|
            if serving_gateway(ids_of(gateways), selections, client.node_id) == Some(
                source.node_id,
            ) {
                Some(served_node(client, now, policy))
            } else {
                None
            };
        let g = |id: Seq<char>|
            projected_for_node(source, id, seen, gateways, selections, policy, now);
        let direct = direct_clients(
            source,
            seen,
            ids_of(gateways),
            selections,
            policy,
            now,
            seen.len(),
        );
        let through = gathered(ids, g, ids.len());
        crate::lists::lemma_gathered_members(seen, f);
        crate::lists::lemma_gathered_members(ids, g);
        lemma_id_set_members(gateways, gateways.len());
        crate::ids::lemma_sorted_names_members(set);
        let all = direct + through;
        crate::order::lemma_sorted_by(all, |node: NodeRecordView| text_key(node.node_id));
        assert(all.contains(node) <==> direct.contains(node) || through.contains(node)) by {
            if direct.contains(node) {
                let k = choose|k: int| 0 <= k < direct.len() && direct[k] == node;
                assert(all[k] == node);
            }
            if through.contains(node) {
                let k = choose|k: int| 0 <= k < through.len() && through[k] == node;
                assert(all[direct.len() + k] == node);
            }
        }
        if direct.contains(node) {
            let i = choose|i: int| 0 <= i < seen.len() && f(#[trigger] seen[i]) == Some(node);
            assert(serving_gateway(ids_of(gateways), selections, seen[i].node_id) == Some(
                source.node_id,
            ));
        }
        if through.contains(node) {
            let i = choose|i: int| 0 <= i < ids.len() && g(#[trigger] ids[i]) == Some(node);
            assert(ids.contains(ids[i]));
            let k = choose|k: int|
                0 <= k < gateways.len() && (#[trigger] gateways[k]).node_id == ids[i];
            assert(gateways[k].node_id == ids[i]);
        }
        if exists|i: int|
            0 <= i < seen.len() && serving_gateway(
                ids_of(gateways),
                selections,
                (#[trigger] seen[i]).node_id,
            ) == Some(source.node_id) && node == served_node(seen[i], now, policy) {
            let i = choose|i: int|
                0 <= i < seen.len() && serving_gateway(
                    ids_of(gateways),
                    selections,
                    (#[trigger] seen[i]).node_id,
                ) == Some(source.node_id) && node == served_node(seen[i], now, policy);
            assert(f(seen[i]) == Some(node));
        }
        if exists|k: int|
            0 <= k < gateways.len() && projected_for_node(
                source,
                (#[trigger] gateways[k]).node_id,
                seen,
                gateways,
                selections,
                policy,
                now,
            ) == Some(node) {
            let k = choose|k: int|
                0 <= k < gateways.len() && projected_for_node(
                    source,
                    (#[trigger] gateways[k]).node_id,
                    seen,
                    gateways,
                    selections,
                    policy,
                    now,
                ) == Some(node);
            assert(set.contains(gateways[k].node_id));
            assert(ids.contains(gateways[k].node_id));
            let i = choose|i: int| 0 <= i < ids.len() && ids[i] == gateways[k].node_id;
            assert(g(ids[i]) == Some(node));
        }
    }
}

proof fn lemma_id_set_members(nodes: Seq<NodeRecordView>, n: nat)
    requires
        n <= nodes.len(),
    ensures
        forall|id: Seq<char>| #[trigger]
            id_set(nodes, n).contains(id) <==> exists|i: int|
                0 <= i < n && (#[trigger] nodes[i]).node_id == id,
        id_set(nodes, n).finite(),
    decreases n,
{
    if n > 0 {
        lemma_id_set_members(nodes, (n - 1) as nat);
        assert forall|id: Seq<char>| #[trigger] id_set(nodes, n).contains(id) <==> exists|i: int|
            0 <= i < n && (#[trigger] nodes[i]).node_id == id by {
            if id_set(nodes, (n - 1) as nat).contains(id) {
                let i = choose|i: int| 0 <= i < n - 1 && (#[trigger] nodes[i]).node_id == id;
                assert(nodes[i].node_id == id);
            }
            if exists|i: int| 0 <= i < n && (#[trigger] nodes[i]).node_id == id {
                let i = choose|i: int| 0 <= i < n && (#[trigger] nodes[i]).node_id == id;
                if i < n - 1 {
                    assert(nodes[i].node_id == id);
                }
            }
        }
    }
}

/// A gateway is shown to another node exactly where the node may see it and it serves a client that
/// the node may see. It then has routes to these clients alone.
pub proof fn law_gateways_bring_routes_to_clients_only(
    source: NodeRecordView,
    gateway: NodeRecordView,
    seen: Seq<NodeRecordView>,
    gateways: Seq<NodeRecordView>,
    selections: Map<Seq<Seq<char>>, ClientGatewaySelectionView>,
    policy: ClusterPolicyView,
    now: Timestamp,
)
    requires
        named(gateways, gateway.node_id) == Some(gateway),
    ensures
        ({
            let id = gateway.node_id;
            let shown = projected_for_node(source, id, seen, gateways, selections, policy, now);
            let permitted = visible_peer(source, gateway, policy.acl_rules);
            &&& shown is Some <==> id != source.node_id && permitted is Some && exists|i: int|
                0 <= i < seen.len() && serving_gateway(
                    ids_of(gateways),
                    selections,
                    (#[trigger] seen[i]).node_id,
                ) == Some(id)
            &&& shown is Some ==> {
                let served = served_node(permitted->0, now, policy);
                &&& shown->0 == NodeRecordView { routes: shown->0.routes, ..served }
                &&& forall|route: RouteView| #[trigger]
                    shown->0.routes.contains(route) ==> leads_to_client(
                        seen,
                        ids_of(gateways),
                        selections,
                        id,
                        route,
                    )
                &&& forall|route: RouteView| #[trigger]
                    leads_to_client(seen, ids_of(gateways), selections, id, route)
                        ==> reaches_within(shown->0.routes, route.cidr, 10)
            }
        }),
{
    let id = gateway.node_id;
    let offered = ids_of(gateways);
    let added = routes_to_clients(seen, offered, selections, id, seen.len());
    assert forall|route: RouteView| #[trigger]
        leads_to_client(seen, offered, selections, id, route) == added.contains(route) by {
        law_clients_are_reached_through_their_gateway(seen, offered, selections, id, route);
    }
    if added.len() > 0 {
        assert(added.contains(added[0]));
        assert(leads_to_client(seen, offered, selections, id, added[0]));
    }
    if exists|i: int|
        0 <= i < seen.len() && serving_gateway(
            offered,
            selections,
            (#[trigger] seen[i]).node_id,
        ) == Some(id) {
        let i = choose|i: int|
            0 <= i < seen.len() && serving_gateway(
                offered,
                selections,
                (#[trigger] seen[i]).node_id,
            ) == Some(id);
        assert(leads_to_client(seen, offered, selections, id, client_route(id, seen[i])));
        assert(added.contains(client_route(id, seen[i])));
    }
    let table = with_preferred_routes(Seq::empty(), added, added.len());
    law_preferred_routes_are_collected(Seq::empty(), added, added.len());
    law_listing_by_network_keeps_the_routes(table);
    let routes = by_network(table);
    assert forall|route: RouteView| #[trigger] routes.contains(route) implies leads_to_client(
        seen,
        offered,
        selections,
        id,
        route,
    ) by {
        assert(table.contains(route));
        let i = choose|i: int| 0 <= i < added.len() && #[trigger] added[i] == route;
        assert(added.contains(route));
    }
    assert forall|route: RouteView| #[trigger]
        leads_to_client(seen, offered, selections, id, route) implies reaches_within(
        routes,
        route.cidr,
        10,
    ) by {
        assert(added.contains(route));
        let i = choose|i: int| 0 <= i < added.len() && added[i] == route;
        assert(serves_as_well(table, added[i]));
        lemma_listed_reach(table, route);
    }
}

/// The clients that a node of the overlay may see are exactly those that the access rules let it see.
pub proof fn law_clients_in_order_are_permitted(
    source: NodeRecordView,
    clients: Seq<NodeRecordView>,
    policy: ClusterPolicyView,
    client: NodeRecordView,
)
    ensures
        seen_in_order(source, clients, policy).contains(client) <==> exists|i: int|
            0 <= i < clients.len() && visible_peer(source, #[trigger] clients[i], policy.acl_rules)
                == Some(client),
{
    crate::lists::lemma_gathered_members(
        clients,
        |client: NodeRecordView| visible_peer(source, client, policy.acl_rules),
    );
}

/// What comes of a client asking for a gateway: it has afterwards the one that it asked for where
/// that is offered, else the first that is offered, else none; and nothing is written where that is
/// what it had.
pub proof fn law_selection_follows_the_request(
    client_id: Seq<char>,
    gateways: Seq<Seq<char>>,
    requested: Option<Seq<char>>,
    previous: Option<Seq<char>>,
    now: Timestamp,
)
    ensures
        ({
            let wanted = if requested is Some && gateways.contains(requested->0) {
                requested
            } else if gateways.len() > 0 {
                Some(gateways[0])
            } else {
                None
            };
            let change = selection_change(client_id, gateways, requested, previous, now);
            &&& change is Keep <==> wanted == previous
            &&& change is Forget <==> wanted is None && previous is Some
            &&& change matches SelectionChangeView::Select(selection) ==> {
                &&& selection.client_id == client_id
                &&& Some(selection.gateway_node_id) == wanted
                &&& selection.selected_at == now
                &&& wanted != previous
            }
        }),
{
}

} // verus!
