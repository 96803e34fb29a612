//! Tables of routes with one route for each network, and the preference among routes.

use vstd::prelude::*;

use crate::lists::{first_in, lemma_first_in_extends, lemma_first_in_found, lemma_first_in_none};
use crate::net::{Cidr, IpAddr};
use crate::order::{
    key_lt, key_view, keys_of, keys_view, sort_records, sorted_by, KeyPart, KeyPartView, KeyView,
};
use crate::text::{text_lt, text_precedes};
use crate::types::{views, Record, Route, RouteView};

verus! {

/// The key by which networks are ordered: family, address, prefix length.
pub open spec fn cidr_key(cidr: Cidr) -> KeyView {
    seq![
        KeyPartView::Number(
            if cidr.is_v4() {
                0
            } else {
                1
            },
        ),
        KeyPartView::Number((cidr.number() / 0x1_0000_0000_0000_0000) as int),
        KeyPartView::Number((cidr.number() % 0x1_0000_0000_0000_0000) as int),
        KeyPartView::Number(cidr.bits() as int),
    ]
}

/// The sort key of a network.
pub fn cidr_sort_key(cidr: &Cidr) -> (r: Vec<KeyPart>)
    ensures
        key_view(r@) == cidr_key(*cidr),
{
    let mut r: Vec<KeyPart> = Vec::new();
    let (family, number, prefix): (i128, u128, u8) = match *cidr {
        Cidr::V4 { addr, prefix } => (0, addr as u128, prefix),
        Cidr::V6 { addr, prefix } => (1, addr, prefix),
    };
    r.push(KeyPart::Number(family));
    r.push(KeyPart::Number((number / 0x1_0000_0000_0000_0000) as i128));
    r.push(KeyPart::Number((number % 0x1_0000_0000_0000_0000) as i128));
    r.push(KeyPart::Number(prefix as i128));
    assert(key_view(r@) =~= cidr_key(*cidr));
    r
}

/// The position of the first of the first `n` routes to a network.
pub open spec fn route_position(table: Seq<RouteView>, cidr: Cidr, n: nat) -> Option<int> {
    first_in(
        n,
        |i: int|
            if table[i].cidr == cidr {
                Some(i)
            } else {
                None
            },
    )
}

/// The route is preferred to the other: by its metric, then by its identifier.
pub open spec fn preferred_route(route: RouteView, other: RouteView) -> bool {
    route.metric < other.metric || (route.metric == other.metric && text_lt(route.id, other.id))
}

/// The table with a route in the place of the one to the same network, or as a new one.
pub open spec fn with_route(table: Seq<RouteView>, route: RouteView) -> Seq<RouteView> {
    match route_position(table, route.cidr, table.len()) {
        Some(i) => table.update(i, route),
        None => table.push(route),
    }
}

/// The table with a route, unless it has a route to the same network that is not worse.
pub open spec fn with_preferred_route(table: Seq<RouteView>, route: RouteView) -> Seq<RouteView> {
    match route_position(table, route.cidr, table.len()) {
        Some(i) => if preferred_route(route, table[i]) {
            table.update(i, route)
        } else {
            table
        },
        None => table.push(route),
    }
}

/// The table of the first `n` routes: of those to one network, the last.
pub open spec fn table_of(routes: Seq<RouteView>, n: nat) -> Seq<RouteView>
    decreases n,
{
    if n == 0 {
        Seq::empty()
    } else {
        with_route(table_of(routes, (n - 1) as nat), routes[n - 1])
    }
}

/// A table with the first `n` of more routes, of which the preferred ones stay.
pub open spec fn with_preferred_routes(
    table: Seq<RouteView>,
    routes: Seq<RouteView>,
    n: nat,
) -> Seq<RouteView>
    decreases n,
{
    if n == 0 {
        table
    } else {
        with_preferred_route(
            with_preferred_routes(table, routes, (n - 1) as nat),
            routes[n - 1],
        )
    }
}

/// The routes of a table in the order of their networks.
pub open spec fn by_network(table: Seq<RouteView>) -> Seq<RouteView> {
    sorted_by(table, |route: RouteView| cidr_key(route.cidr))
}

fn find_route(table: &Vec<Route>, cidr: Cidr) -> (r: Option<usize>)
    ensures
        match r {
            Some(i) => i < table@.len() && route_position(views(table@), cidr, table@.len())
                == Some(i as int),
            None => route_position(views(table@), cidr, table@.len()) is None,
        },
{
    let ghost all = views(table@);
    let ghost f = |i: int|
        if all[i].cidr == cidr {
            Some(i)
        } else {
            None
        };
    let mut i: usize = 0;
    while i < table.len()
        invariant
            i <= table@.len(),
            all == views(table@),
            f == (|i: int|
                if all[i].cidr == cidr {
                    Some(i)
                } else {
                    None
                }),
            first_in(i as nat, f) is None,
        decreases table@.len() - i,
    {
        assert(all[i as int] == table@[i as int]@);
        if table[i].cidr == cidr {
            proof {
                lemma_first_in_extends((i + 1) as nat, all.len(), f);
            }
            return Some(i);
        }
        i = i + 1;
    }
    None
}

/// Puts a route in the place of the one to the same network, or adds it.
pub fn insert_route(table: &mut Vec<Route>, route: Route)
    ensures
        views(final(table)@) == with_route(views(old(table)@), route@),
{
    let ghost before = views(table@);
    match find_route(table, route.cidr) {
        Some(i) => {
            table.set(i, route);
            assert(views(table@) =~= before.update(i as int, route@));
        },
        None => {
            table.push(route);
            assert(views(table@) =~= before.push(route@));
        },
    }
}

/// Adds a route, unless the table has a route to the same network that is not worse.
pub fn insert_preferred_gateway_route(table: &mut Vec<Route>, route: Route)
    ensures
        views(final(table)@) == with_preferred_route(views(old(table)@), route@),
{
    let ghost before = views(table@);
    match find_route(table, route.cidr) {
        Some(i) => {
            assert(before[i as int] == table@[i as int]@);
            let better = route.metric < table[i].metric || (route.metric == table[i].metric
                && text_precedes(route.id.as_str(), table[i].id.as_str()));
            if better {
                table.set(i, route);
                assert(views(table@) =~= before.update(i as int, route@));
            }
        },
        None => {
            table.push(route);
            assert(views(table@) =~= before.push(route@));
        },
    }
}

/// The table of a list of routes: of those to one network, the last.
pub fn build_table(routes: &Vec<Route>) -> (r: Vec<Route>)
    ensures
        views(r@) == table_of(views(routes@), routes@.len()),
{
    let ghost all = views(routes@);
    let mut r: Vec<Route> = Vec::new();
    let mut i: usize = 0;
    assert(views(r@) =~= Seq::empty());
    while i < routes.len()
        invariant
            i <= routes@.len(),
            all == views(routes@),
            views(r@) == table_of(all, i as nat),
        decreases routes@.len() - i,
    {
        assert(all[i as int] == routes@[i as int]@);
        insert_route(&mut r, routes[i].duplicate());
        i = i + 1;
    }
    r
}

/// Adds routes to a table, of which the preferred ones stay.
pub fn insert_preferred_routes(table: &mut Vec<Route>, routes: &Vec<Route>)
    ensures
        views(final(table)@) == with_preferred_routes(
            views(old(table)@),
            views(routes@),
            routes@.len(),
        ),
{
    let ghost before = views(table@);
    let ghost all = views(routes@);
    let mut i: usize = 0;
    while i < routes.len()
        invariant
            i <= routes@.len(),
            all == views(routes@),
            views(table@) == with_preferred_routes(before, all, i as nat),
        decreases routes@.len() - i,
    {
        assert(all[i as int] == routes@[i as int]@);
        insert_preferred_gateway_route(table, routes[i].duplicate());
        i = i + 1;
    }
}

/// The routes of a table in the order of their networks.
pub fn list_by_network(table: &Vec<Route>) -> (r: Vec<Route>)
    ensures
        views(r@) == by_network(views(table@)),
{
    let ghost all = views(table@);
    let mut keys: Vec<Vec<KeyPart>> = Vec::new();
    let mut i: usize = 0;
    while i < table.len()
        invariant
            i <= table@.len(),
            keys@.len() == i,
            forall|k: int|
                0 <= k < i ==> key_view((#[trigger] keys@[k])@) == cidr_key(table@[k]@.cidr),
        decreases table@.len() - i,
    {
        keys.push(cidr_sort_key(&table[i].cidr));
        i = i + 1;
    }
    assert(keys_view(keys@) =~= keys_of(all, |route: RouteView| cidr_key(route.cidr)));
    sort_records(table, &keys)
}

/// The network of one address.
pub open spec fn host_network(ip: IpAddr) -> Cidr {
    match ip {
        IpAddr::V4(addr) => Cidr::V4 { addr, prefix: 32 },
        IpAddr::V6(addr) => Cidr::V6 { addr, prefix: 128 },
    }
}

/// The network of one address.
pub fn vpn_host_cidr(ip: &IpAddr) -> (r: Cidr)
    ensures
        r == host_network(*ip),
{
    match *ip {
        IpAddr::V4(addr) => Cidr::V4 { addr, prefix: 32 },
        IpAddr::V6(addr) => Cidr::V6 { addr, prefix: 128 },
    }
}

/// No two routes of the table lead to the same network.
pub open spec fn one_per_network(table: Seq<RouteView>) -> bool {
    forall|i: int, j: int|
        0 <= i < j < table.len() ==> (#[trigger] table[i]).cidr != (#[trigger] table[j]).cidr
}

/// However routes are put in, a table has one route for each network.
pub proof fn law_table_has_one_route_per_network(table: Seq<RouteView>, route: RouteView)
    requires
        one_per_network(table),
    ensures
        one_per_network(with_route(table, route)),
        one_per_network(with_preferred_route(table, route)),
{
    let n = table.len();
    let f = |i: int|
        if table[i].cidr == route.cidr {
            Some(i)
        } else {
            None
        };
    if first_in(n, f) is Some {
        let at = lemma_first_in_found(n, f);
        assert(f(at) == Some(at));
    } else {
        lemma_first_in_none(n, f);
        assert forall|i: int| 0 <= i < n implies (#[trigger] table[i]).cidr != route.cidr by {
            assert(f(i) is None);
        }
    }
}

/// A table has a route for a network that is no worse than a given one: no higher a metric, and at
/// the same metric no later an identifier.
pub open spec fn serves_as_well(table: Seq<RouteView>, route: RouteView) -> bool {
    exists|i: int|
        0 <= i < table.len() && (#[trigger] table[i]).cidr == route.cidr && (table[i].metric
            < route.metric || (table[i].metric == route.metric && !text_lt(
            route.id,
            table[i].id,
        )))
}

/// A route that is offered to a table takes the place of the one for the same network where its
/// metric is less, or the same with an earlier identifier, and else leaves the table as it is; a
/// route for a new network is taken up. Everything else of the table stays.
pub proof fn law_better_route_is_preferred(table: Seq<RouteView>, route: RouteView)
    requires
        one_per_network(table),
    ensures
        forall|x: RouteView| #[trigger]
            with_preferred_route(table, route).contains(x) ==> table.contains(x) || x == route,
        forall|x: RouteView|
            table.contains(x) && x.cidr != route.cidr ==> #[trigger] with_preferred_route(
                table,
                route,
            ).contains(x),
        serves_as_well(with_preferred_route(table, route), route),
        forall|x: RouteView|
            table.contains(x) ==> #[trigger] serves_as_well(with_preferred_route(table, route), x),
        (forall|i: int| 0 <= i < table.len() ==> (#[trigger] table[i]).cidr != route.cidr)
            ==> with_preferred_route(table, route) == table.push(route),
{
    let f = |i: int|
        if table[i].cidr == route.cidr {
            Some(i)
        } else {
            None
        };
    let t = with_preferred_route(table, route);
    crate::lists::lemma_first_in_none(table.len(), f);
    crate::text::lemma_text_lt_irreflexive(route.id);
    if first_in(table.len(), f) is Some {
        let at = crate::lists::lemma_first_in_found(table.len(), f);
        assert(route_position(table, route.cidr, table.len()) == Some(at));
        assert(table[at].cidr == route.cidr);
        crate::text::lemma_text_lt_irreflexive(table[at].id);
        if t == table {
            assert(t[at].cidr == route.cidr);
        } else {
            assert(t[at] == route);
            if text_lt(route.id, table[at].id) && text_lt(table[at].id, route.id) {
                crate::text::lemma_text_lt_transitive(route.id, table[at].id, route.id);
            }
        }
        assert(serves_as_well(t, route));
        assert forall|x: RouteView| table.contains(x) implies #[trigger] serves_as_well(t, x) by {
            let i = choose|i: int| 0 <= i < table.len() && table[i] == x;
            crate::text::lemma_text_lt_irreflexive(x.id);
            if i == at {
                assert(t[at].cidr == x.cidr);
            } else {
                assert(t[i] == x);
            }
        }
        assert forall|x: RouteView| #[trigger] t.contains(x) implies table.contains(x) || x
            == route by {
            let i = choose|i: int| 0 <= i < t.len() && t[i] == x;
            if i != at {
                assert(table[i] == x);
            } else if t == table {
                assert(table[i] == x);
            }
        }
        assert forall|x: RouteView| table.contains(x) && x.cidr != route.cidr implies #[trigger] t.contains(
            x,
        ) by {
            let i = choose|i: int| 0 <= i < table.len() && table[i] == x;
            assert(t[i] == x);
        }
    } else {
        assert(t == table.push(route));
        assert(t[table.len() as int] == route);
        assert forall|x: RouteView| #[trigger] t.contains(x) implies table.contains(x) || x
            == route by {
            let i = choose|i: int| 0 <= i < t.len() && t[i] == x;
            if i < table.len() {
                assert(table[i] == x);
            }
        }
        assert forall|x: RouteView| table.contains(x) implies #[trigger] serves_as_well(t, x) by {
            let i = choose|i: int| 0 <= i < table.len() && table[i] == x;
            crate::text::lemma_text_lt_irreflexive(x.id);
            assert(t[i] == x);
        }
        assert forall|x: RouteView| table.contains(x) implies #[trigger] t.contains(x) by {
            let i = choose|i: int| 0 <= i < table.len() && table[i] == x;
            assert(t[i] == x);
        }
    }
}

/// What serves as well as one route serves as well as a worse one for the same network.
pub proof fn lemma_serves_carries(a: Seq<RouteView>, b: Seq<RouteView>, route: RouteView)
    requires
        serves_as_well(a, route),
        forall|x: RouteView| a.contains(x) ==> #[trigger] serves_as_well(b, x),
    ensures
        serves_as_well(b, route),
{
    let i = choose|i: int|
        0 <= i < a.len() && (#[trigger] a[i]).cidr == route.cidr && (a[i].metric < route.metric || (
        a[i].metric == route.metric && !text_lt(route.id, a[i].id)));
    assert(a.contains(a[i]));
    assert(serves_as_well(b, a[i]));
    let k = choose|k: int|
        0 <= k < b.len() && (#[trigger] b[k]).cidr == a[i].cidr && (b[k].metric < a[i].metric || (
        b[k].metric == a[i].metric && !text_lt(a[i].id, b[k].id)));
    if text_lt(route.id, b[k].id) {
        crate::text::lemma_text_lt_total(a[i].id, b[k].id);
        crate::text::lemma_text_lt_total(route.id, a[i].id);
        if b[k].metric == a[i].metric && a[i].metric == route.metric {
            // The identifiers come in the order b, a, route, and route before b.
            if text_lt(b[k].id, a[i].id) {
                crate::text::lemma_text_lt_transitive(route.id, b[k].id, a[i].id);
            }
            assert(false);
        }
    }
    assert(b[k].cidr == route.cidr);
}

/// Routes that are offered to a table one after the other: each of them, and each that was there, is
/// served as well in the end, and nothing comes up that was not among them.
pub proof fn law_preferred_routes_are_collected(
    table: Seq<RouteView>,
    routes: Seq<RouteView>,
    n: nat,
)
    requires
        one_per_network(table),
        n <= routes.len(),
    ensures
        one_per_network(with_preferred_routes(table, routes, n)),
        forall|x: RouteView| #[trigger]
            with_preferred_routes(table, routes, n).contains(x) ==> table.contains(x) || exists|
                i: int,
            |
                0 <= i < n && #[trigger] routes[i] == x,
        forall|i: int|
            0 <= i < n ==> serves_as_well(
                with_preferred_routes(table, routes, n),
                #[trigger] routes[i],
            ),
        forall|x: RouteView|
            table.contains(x) ==> #[trigger] serves_as_well(
                with_preferred_routes(table, routes, n),
                x,
            ),
    decreases n,
{
    if n == 0 {
        assert forall|x: RouteView| table.contains(x) implies #[trigger] serves_as_well(
            table,
            x,
        ) by {
            let i = choose|i: int| 0 <= i < table.len() && table[i] == x;
            crate::text::lemma_text_lt_irreflexive(x.id);
            assert(table[i].cidr == x.cidr);
        }
    } else {
        law_preferred_routes_are_collected(table, routes, (n - 1) as nat);
        let before = with_preferred_routes(table, routes, (n - 1) as nat);
        let t = with_preferred_route(before, routes[n - 1]);
        law_better_route_is_preferred(before, routes[n - 1]);
        law_table_has_one_route_per_network(before, routes[n - 1]);
        assert forall|i: int| 0 <= i < n implies serves_as_well(t, #[trigger] routes[i]) by {
            if i < n - 1 {
                lemma_serves_carries(before, t, routes[i]);
            }
        }
        assert forall|x: RouteView| table.contains(x) implies #[trigger] serves_as_well(t, x) by {
            lemma_serves_carries(before, t, x);
        }
        assert forall|x: RouteView| #[trigger] t.contains(x) implies table.contains(x) || exists|
            i: int,
        |
            0 <= i < n && #[trigger] routes[i] == x by {
            if x == routes[n - 1] {
                assert(routes[n - 1] == x);
            } else {
                assert(before.contains(x));
                if !table.contains(x) {
                    let i = choose|i: int| 0 <= i < n - 1 && #[trigger] routes[i] == x;
                    assert(routes[i] == x);
                }
            }
        }
    }
}

/// A table that is built from routes has one of them for each of their networks.
pub proof fn law_table_is_of_its_routes(routes: Seq<RouteView>, n: nat)
    requires
        n <= routes.len(),
    ensures
        one_per_network(table_of(routes, n)),
        forall|x: RouteView| #[trigger]
            table_of(routes, n).contains(x) ==> exists|i: int|
                0 <= i < n && #[trigger] routes[i] == x,
        forall|i: int|
            0 <= i < n ==> exists|k: int|
                0 <= k < table_of(routes, n).len() && (#[trigger] table_of(routes, n)[k]).cidr == (
                #[trigger] routes[i]).cidr,
        one_per_network(routes) ==> table_of(routes, n) == routes.take(n as int),
    decreases n,
{
    if n > 0 {
        law_table_is_of_its_routes(routes, (n - 1) as nat);
        let before = table_of(routes, (n - 1) as nat);
        let route = routes[n - 1];
        let t = with_route(before, route);
        law_table_has_one_route_per_network(before, route);
        let f = |i: int|
            if before[i].cidr == route.cidr {
                Some(i)
            } else {
                None
            };
        crate::lists::lemma_first_in_none(before.len(), f);
        let at = if first_in(before.len(), f) is Some {
            crate::lists::lemma_first_in_found(before.len(), f)
        } else {
            before.len() as int
        };
        assert(t[at] == route);
        assert forall|x: RouteView| #[trigger] t.contains(x) implies exists|i: int|
            0 <= i < n && #[trigger] routes[i] == x by {
            let k = choose|k: int| 0 <= k < t.len() && t[k] == x;
            if k == at {
                assert(routes[n - 1] == x);
            } else {
                assert(before[k] == x);
                assert(before.contains(x));
                let i = choose|i: int| 0 <= i < n - 1 && #[trigger] routes[i] == x;
                assert(routes[i] == x);
            }
        }
        assert forall|i: int| 0 <= i < n implies exists|k: int|
            0 <= k < t.len() && (#[trigger] t[k]).cidr == (#[trigger] routes[i]).cidr by {
            if i < n - 1 {
                let k = choose|k: int|
                    0 <= k < before.len() && (#[trigger] before[k]).cidr == routes[i].cidr;
                assert(t[k].cidr == routes[i].cidr);
            } else {
                assert(t[at].cidr == routes[i].cidr);
            }
        }
        if one_per_network(routes) {
            assert(before =~= routes.take(n - 1));
            assert forall|i: int| 0 <= i < before.len() implies (#[trigger] f(i)) is None by {
                assert(routes[i].cidr != routes[n - 1].cidr);
            }
            assert(t =~= routes.take(n as int));
        }
    } else {
        assert(table_of(routes, 0) =~= routes.take(0));
    }
}

/// A table that is listed by network has the same routes, IPv4 ones before IPv6 ones, and those of a
/// family by the number of the address that their network is written with.
pub proof fn law_listing_by_network_keeps_the_routes(table: Seq<RouteView>)
    ensures
        by_network(table).len() == table.len(),
        forall|x: RouteView| #[trigger] by_network(table).contains(x) <==> table.contains(x),
        forall|i: int, j: int|
            0 <= i < j < table.len() ==> {
                let a = (#[trigger] by_network(table)[i]).cidr;
                let b = (#[trigger] by_network(table)[j]).cidr;
                &&& b.is_v4() ==> a.is_v4()
                &&& a.is_v4() == b.is_v4() ==> a.number() <= b.number()
            },
{
    let key = |route: RouteView| cidr_key(route.cidr);
    crate::order::lemma_sorted_by(table, key);
    assert forall|x: RouteView| #[trigger] by_network(table).contains(x) <==> table.contains(x) by {
        assert(sorted_by(table, key).contains(x) <==> table.contains(x));
    }
    assert forall|i: int, j: int| 0 <= i < j < table.len() implies {
        let a = (#[trigger] by_network(table)[i]).cidr;
        let b = (#[trigger] by_network(table)[j]).cidr;
        &&& b.is_v4() ==> a.is_v4()
        &&& a.is_v4() == b.is_v4() ==> a.number() <= b.number()
    } by {
        let a = by_network(table)[i].cidr;
        let b = by_network(table)[j].cidr;
        let x = cidr_key(b);
        let y = cidr_key(a);
        assert(!key_lt(key(by_network(table)[j]), key(by_network(table)[i])));
        assert(!key_lt(x, y));
        reveal_with_fuel(key_lt, 4);
        assert(x.skip(1)[0] == x[1] && y.skip(1)[0] == y[1]);
        assert(x.skip(1).skip(1)[0] == x[2] && y.skip(1).skip(1)[0] == y[2]);
        if a.is_v4() == b.is_v4() && a.number() > b.number() {
            let w = 0x1_0000_0000_0000_0000int;
            vstd::arithmetic::div_mod::lemma_fundamental_div_mod(a.number() as int, w);
            vstd::arithmetic::div_mod::lemma_fundamental_div_mod(b.number() as int, w);
        }
    }
}

} // verus!
