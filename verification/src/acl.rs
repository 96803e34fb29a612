//! Access rules: which nodes see each other, and which routes and destinations they reach.

use vstd::prelude::*;

use crate::ids::NameSet;
use crate::lists::{kept, lemma_kept, lemma_kept_from, lemma_kept_members};
use crate::net::{
    has_all_of, has_some_of, ipnet_contains, ipnets_overlap, law_enclosure_is_of_all_addresses,
    law_overlap_is_a_common_address, Cidr, IpAddr,
};
use crate::types::{
    lemma_views_push, views, AclAction, AclRule, AclRuleView, ClusterPolicy, NodeRecord,
    NodeRecordView, Record, Route, RouteView, TransportProtocol,
};

verus! {

/// The set is empty, or has the name.
pub open spec fn admits_name(names: Set<Seq<char>>, name: Seq<char>) -> bool {
    names == Set::<Seq<char>>::empty() || names.contains(name)
}

/// The set is empty, or has one of the names.
pub open spec fn admits_some(names: Set<Seq<char>>, others: Set<Seq<char>>) -> bool {
    names == Set::<Seq<char>>::empty() || !names.disjoint(others)
}

/// The rule speaks of traffic from the source to the target.
pub open spec fn selectors_match(
    rule: AclRuleView,
    source: NodeRecordView,
    target: NodeRecordView,
) -> bool {
    &&& rule.protocol == TransportProtocol::Any
    &&& admits_name(rule.from_roles, source.role)
    &&& admits_name(rule.to_roles, target.role)
    &&& admits_some(rule.from_tags, source.tags)
    &&& admits_some(rule.to_tags, target.tags)
}

/// Some network of an allowing rule encloses the network; some network of a denying rule overlaps
/// it.
pub open spec fn rule_touches(rule: AclRuleView, cidr: Cidr) -> bool {
    exists|i: int|
        0 <= i < rule.routes.len() && match rule.action {
            AclAction::Allow => (#[trigger] rule.routes[i]).encloses(cidr),
            AclAction::Deny => rule.routes[i].meets(cidr),
        }
}

/// The rule speaks of traffic from the source to the target itself, or to a network behind it.
pub open spec fn rule_matches(
    rule: AclRuleView,
    source: NodeRecordView,
    target: NodeRecordView,
    network: Option<Cidr>,
) -> bool {
    selectors_match(rule, source, target) && (rule.routes.len() == 0 || match network {
        Some(cidr) => rule_touches(rule, cidr),
        None => false,
    })
}

/// The rule speaks of traffic from the source through the target to a destination.
pub open spec fn rule_matches_destination(
    rule: AclRuleView,
    source: NodeRecordView,
    target: NodeRecordView,
    destination: IpAddr,
) -> bool {
    selectors_match(rule, source, target) && (rule.routes.len() == 0
        || crate::net::some_covers(rule.routes, destination))
}

/// Some rule of the list matches and takes the action.
pub open spec fn some_rule(
    rules: Seq<AclRuleView>,
    action: AclAction,
    matches_rule: spec_fn(AclRuleView) -> bool,
) -> bool {
    exists|i: int| 0 <= i < rules.len() && (#[trigger] rules[i]).action == action && matches_rule(rules[i])
}

/// What the rules say: a matching denial decides, then a matching permission.
pub open spec fn verdict(
    rules: Seq<AclRuleView>,
    matches_rule: spec_fn(AclRuleView) -> bool,
) -> Option<bool> {
    if some_rule(rules, AclAction::Deny, matches_rule) {
        Some(false)
    } else if some_rule(rules, AclAction::Allow, matches_rule) {
        Some(true)
    } else {
        None
    }
}

/// What the rules say of traffic from the source to the target, or to a network behind it.
pub open spec fn decision(
    source: NodeRecordView,
    target: NodeRecordView,
    network: Option<Cidr>,
    rules: Seq<AclRuleView>,
) -> Option<bool> {
    verdict(rules, |rule: AclRuleView| rule_matches(rule, source, target, network))
}

/// The source may see the target.
pub open spec fn peer_allowed(
    source: NodeRecordView,
    target: NodeRecordView,
    rules: Seq<AclRuleView>,
) -> bool {
    decision(source, target, None, rules) == Some(true)
}

/// The source may use a route of the target.
pub open spec fn route_allowed(
    source: NodeRecordView,
    target: NodeRecordView,
    route: RouteView,
    rules: Seq<AclRuleView>,
) -> bool {
    decision(source, target, Some(route.cidr), rules) == Some(true)
}

/// The source may reach the destination through the target.
pub open spec fn destination_allowed(
    source: NodeRecordView,
    target: NodeRecordView,
    destination: IpAddr,
    rules: Seq<AclRuleView>,
) -> bool {
    verdict(rules, |rule: AclRuleView| rule_matches_destination(rule, source, target, destination))
        == Some(true)
}

/// Those routes of the target that the source may use.
pub open spec fn allowed_routes(
    source: NodeRecordView,
    target: NodeRecordView,
    rules: Seq<AclRuleView>,
) -> Seq<RouteView> {
    kept(
        target.routes,
        |route: RouteView| route_allowed(source, target, route, rules),
        target.routes.len(),
    )
}

/// What the source sees of the target. Without rules it sees all; with rules, the target itself or
/// at least one of its routes has to be permitted, and it sees the permitted routes.
pub open spec fn visible_peer(
    source: NodeRecordView,
    target: NodeRecordView,
    rules: Seq<AclRuleView>,
) -> Option<NodeRecordView> {
    if rules.len() == 0 {
        Some(target)
    } else {
        let routes = allowed_routes(source, target, rules);
        if !peer_allowed(source, target, rules) && routes.len() == 0 {
            None
        } else {
            Some(NodeRecordView { routes, ..target })
        }
    }
}

fn name_admitted(names: &NameSet, name: &str) -> (r: bool)
    ensures
        r == admits_name(names@, name@),
{
    names.is_empty() || names.contains(name)
}

fn some_name_admitted(names: &NameSet, others: &NameSet) -> (r: bool)
    ensures
        r == admits_some(names@, others@),
{
    names.is_empty() || !names.is_disjoint(others)
}

/// Whether a rule speaks of traffic from the source to the target.
pub fn acl_rule_matches_node_selectors(rule: &AclRule, source: &NodeRecord, target: &NodeRecord) -> (r:
    bool)
    ensures
        r == selectors_match(rule@, source@, target@),
{
    if rule.protocol != TransportProtocol::Any {
        return false;
    }
    if !name_admitted(&rule.from_roles, source.role.as_str()) {
        return false;
    }
    if !name_admitted(&rule.to_roles, target.role.as_str()) {
        return false;
    }
    if !some_name_admitted(&rule.from_tags, &source.tags) {
        return false;
    }
    some_name_admitted(&rule.to_tags, &target.tags)
}

fn any_route_touches(rule: &AclRule, cidr: &Cidr) -> (r: bool)
    ensures
        r == rule_touches(rule@, *cidr),
{
    let mut i: usize = 0;
    while i < rule.routes.len()
        invariant
            i <= rule.routes@.len(),
            forall|k: int|
                0 <= k < i ==> !match rule.action {
                    AclAction::Allow => (#[trigger] rule.routes@[k]).encloses(*cidr),
                    AclAction::Deny => rule.routes@[k].meets(*cidr),
                },
        decreases rule.routes@.len() - i,
    {
        let touches = match rule.action {
            AclAction::Allow => ipnet_contains(&rule.routes[i], cidr),
            AclAction::Deny => ipnets_overlap(&rule.routes[i], cidr),
        };
        if touches {
            assert(match rule@.action {
                AclAction::Allow => rule@.routes[i as int].encloses(*cidr),
                AclAction::Deny => rule@.routes[i as int].meets(*cidr),
            });
            return true;
        }
        i = i + 1;
    }
    false
}

/// Whether a rule speaks of traffic from the source to the target itself, or to one of its routes.
pub fn acl_rule_matches(
    rule: &AclRule,
    source: &NodeRecord,
    target: &NodeRecord,
    route: Option<&Route>,
) -> (r: bool)
    ensures
        r == rule_matches(
            rule@,
            source@,
            target@,
            match route {
                Some(route) => Some(route@.cidr),
                None => None,
            },
        ),
{
    if !acl_rule_matches_node_selectors(rule, source, target) {
        return false;
    }
    match route {
        Some(route) => rule.routes.len() == 0 || any_route_touches(rule, &route.cidr),
        None => rule.routes.len() == 0,
    }
}

fn any_route_covers(rule: &AclRule, destination: &IpAddr) -> (r: bool)
    ensures
        r == crate::net::some_covers(rule@.routes, *destination),
{
    let mut i: usize = 0;
    while i < rule.routes.len()
        invariant
            i <= rule.routes@.len(),
            forall|k: int| 0 <= k < i ==> !(#[trigger] rule.routes@[k]).covers(*destination),
        decreases rule.routes@.len() - i,
    {
        if rule.routes[i].contains(destination) {
            assert(rule@.routes[i as int].covers(*destination));
            return true;
        }
        i = i + 1;
    }
    false
}

/// Whether a rule speaks of traffic from the source through the target to a destination.
pub fn acl_rule_matches_destination(
    rule: &AclRule,
    source: &NodeRecord,
    target: &NodeRecord,
    destination: IpAddr,
) -> (r: bool)
    ensures
        r == rule_matches_destination(rule@, source@, target@, destination),
{
    acl_rule_matches_node_selectors(rule, source, target) && (rule.routes.len() == 0
        || any_route_covers(rule, &destination))
}

/// What the rules say of traffic from the source to the target, or to one of its routes.
pub fn acl_decision(
    source: &NodeRecord,
    target: &NodeRecord,
    route: Option<&Route>,
    policy: &ClusterPolicy,
) -> (r: Option<bool>)
    ensures
        r == decision(
            source@,
            target@,
            match route {
                Some(route) => Some(route@.cidr),
                None => None,
            },
            policy@.acl_rules,
        ),
{
    let ghost network = match route {
        Some(route) => Some(route@.cidr),
        None => None,
    };
    let ghost m = |rule: AclRuleView| rule_matches(rule, source@, target@, network);
    let ghost rules = policy@.acl_rules;
    let mut allowed: Option<bool> = None;
    let mut i: usize = 0;
    while i < policy.acl_rules.len()
        invariant
            i <= policy.acl_rules@.len(),
            rules == views(policy.acl_rules@),
            network == (match route {
                Some(route) => Some(route@.cidr),
                None => None,
            }),
            m == (|rule: AclRuleView| rule_matches(rule, source@, target@, network)),
            forall|k: int| 0 <= k < i && m(#[trigger] rules[k]) ==> rules[k].action == AclAction::Allow,
            allowed == Some(true) || allowed is None,
            allowed == Some(true) <==> exists|k: int|
                0 <= k < i && (#[trigger] rules[k]).action == AclAction::Allow && m(rules[k]),
        decreases policy.acl_rules@.len() - i,
    {
        let rule = &policy.acl_rules[i];
        assert(rules[i as int] == rule@);
        if acl_rule_matches(rule, source, target, route) {
            assert(m(rules[i as int]));
            match rule.action {
                AclAction::Deny => {
                    assert(some_rule(rules, AclAction::Deny, m));
                    return Some(false);
                },
                AclAction::Allow => {
                    allowed = Some(true);
                },
            }
        }
        i = i + 1;
    }
    allowed
}

/// Whether the source may see the target.
pub fn acl_allows_peer(source: &NodeRecord, target: &NodeRecord, policy: &ClusterPolicy) -> (r: bool)
    ensures
        r == peer_allowed(source@, target@, policy@.acl_rules),
{
    acl_decision(source, target, None, policy).unwrap_or(false)
}

/// Whether the source may use a route of the target.
pub fn acl_allows_route(
    source: &NodeRecord,
    target: &NodeRecord,
    route: &Route,
    policy: &ClusterPolicy,
) -> (r: bool)
    ensures
        r == route_allowed(source@, target@, route@, policy@.acl_rules),
{
    acl_decision(source, target, Some(route), policy).unwrap_or(false)
}

/// Whether the source may reach a destination through the target.
pub fn acl_allows_route_destination(
    source: &NodeRecord,
    target: &NodeRecord,
    destination: IpAddr,
    policy: &ClusterPolicy,
) -> (r: bool)
    ensures
        r == destination_allowed(source@, target@, destination, policy@.acl_rules),
{
    let ghost m = |rule: AclRuleView| rule_matches_destination(rule, source@, target@, destination);
    let ghost rules = policy@.acl_rules;
    let mut allowed = false;
    let mut i: usize = 0;
    while i < policy.acl_rules.len()
        invariant
            i <= policy.acl_rules@.len(),
            rules == views(policy.acl_rules@),
            m == (|rule: AclRuleView|
                rule_matches_destination(rule, source@, target@, destination)),
            forall|k: int| 0 <= k < i && m(#[trigger] rules[k]) ==> rules[k].action == AclAction::Allow,
            allowed <==> exists|k: int|
                0 <= k < i && (#[trigger] rules[k]).action == AclAction::Allow && m(rules[k]),
        decreases policy.acl_rules@.len() - i,
    {
        let rule = &policy.acl_rules[i];
        assert(rules[i as int] == rule@);
        if acl_rule_matches_destination(rule, source, target, destination) {
            assert(m(rules[i as int]));
            match rule.action {
                AclAction::Deny => {
                    assert(some_rule(rules, AclAction::Deny, m));
                    return false;
                },
                AclAction::Allow => {
                    allowed = true;
                },
            }
        }
        i = i + 1;
    }
    allowed
}

/// Those routes of the target that the source may use.
fn acl_allowed_routes(source: &NodeRecord, target: &NodeRecord, policy: &ClusterPolicy) -> (r: Vec<
    Route,
>)
    ensures
        views(r@) == allowed_routes(source@, target@, policy@.acl_rules),
{
    let ghost all = target@.routes;
    let ghost keep = |route: RouteView| route_allowed(source@, target@, route, policy@.acl_rules);
    let mut r: Vec<Route> = Vec::new();
    let mut i: usize = 0;
    assert(views(r@) =~= kept(all, keep, 0));
    while i < target.routes.len()
        invariant
            i <= target.routes@.len(),
            all == views(target.routes@),
            keep == (|route: RouteView|
                route_allowed(source@, target@, route, policy@.acl_rules)),
            views(r@) == kept(all, keep, i as nat),
        decreases target.routes@.len() - i,
    {
        broadcast use lemma_views_push;

        assert(all[i as int] == target.routes@[i as int]@);
        if acl_allows_route(source, target, &target.routes[i], policy) {
            r.push(target.routes[i].duplicate());
        }
        i = i + 1;
    }
    r
}

/// What the source sees of the target.
pub fn acl_filter_peer(source: &NodeRecord, target: &NodeRecord, policy: &ClusterPolicy) -> (r: Option<
    NodeRecord,
>)
    ensures
        crate::types::opt_view(r) == visible_peer(source@, target@, policy@.acl_rules),
{
    if policy.acl_rules.len() == 0 {
        return Some(target.duplicate());
    }
    let routes = acl_allowed_routes(source, target, policy);
    if !acl_allows_peer(source, target, policy) && routes.len() == 0 {
        return None;
    }
    let mut filtered = target.duplicate();
    filtered.routes = routes;
    Some(filtered)
}

/// A matching denial decides, whatever else the rules say.
pub proof fn law_denial_wins(rules: Seq<AclRuleView>, m: spec_fn(AclRuleView) -> bool, i: int)
    requires
        0 <= i < rules.len(),
        rules[i].action == AclAction::Deny,
        m(rules[i]),
    ensures
        verdict(rules, m) == Some(false),
{
}

/// Where no rule matches, nothing is permitted.
pub proof fn law_nothing_is_permitted_by_default(
    rules: Seq<AclRuleView>,
    m: spec_fn(AclRuleView) -> bool,
)
    requires
        forall|i: int| 0 <= i < rules.len() ==> !m(#[trigger] rules[i]),
    ensures
        verdict(rules, m) is None,
{
}

/// The order of the rules does not matter.
pub proof fn law_rule_order_does_not_matter(
    rules: Seq<AclRuleView>,
    other: Seq<AclRuleView>,
    m: spec_fn(AclRuleView) -> bool,
)
    requires
        forall|rule: AclRuleView| rules.contains(rule) <==> other.contains(rule),
    ensures
        verdict(rules, m) == verdict(other, m),
{
    assert forall|action: AclAction| #[trigger] some_rule(rules, action, m) == some_rule(other, action, m) by {
        if some_rule(rules, action, m) {
            let i = choose|i: int|
                0 <= i < rules.len() && (#[trigger] rules[i]).action == action && m(rules[i]);
            assert(rules.contains(rules[i]));
            let k = choose|k: int| 0 <= k < other.len() && other[k] == rules[i];
            assert(other[k].action == action && m(other[k]));
        }
        if some_rule(other, action, m) {
            let i = choose|i: int|
                0 <= i < other.len() && (#[trigger] other[i]).action == action && m(other[i]);
            assert(other.contains(other[i]));
            let k = choose|k: int| 0 <= k < rules.len() && rules[k] == other[i];
            assert(rules[k].action == action && m(rules[k]));
        }
    }
}

/// One more denying rule permits nothing that was not permitted before.
pub proof fn law_denying_rule_only_narrows(
    rules: Seq<AclRuleView>,
    denial: AclRuleView,
    m: spec_fn(AclRuleView) -> bool,
)
    requires
        denial.action == AclAction::Deny,
        verdict(rules.push(denial), m) == Some(true),
    ensures
        verdict(rules, m) == Some(true),
{
    let more = rules.push(denial);
    if some_rule(rules, AclAction::Deny, m) {
        let i = choose|i: int|
            0 <= i < rules.len() && (#[trigger] rules[i]).action == AclAction::Deny && m(rules[i]);
        assert(more[i].action == AclAction::Deny && m(more[i]));
    }
    let k = choose|k: int|
        0 <= k < more.len() && (#[trigger] more[k]).action == AclAction::Allow && m(more[k]);
    assert(rules[k] == more[k]);
}

/// A denial of a network that covers a destination is not bypassed by a permission of a wider one.
pub proof fn law_specific_denial_is_not_bypassed(
    source: NodeRecordView,
    target: NodeRecordView,
    destination: IpAddr,
    rules: Seq<AclRuleView>,
    i: int,
)
    requires
        0 <= i < rules.len(),
        rules[i].action == AclAction::Deny,
        selectors_match(rules[i], source, target),
        crate::net::some_covers(rules[i].routes, destination),
    ensures
        !destination_allowed(source, target, destination, rules),
{
    law_denial_wins(
        rules,
        |rule: AclRuleView| rule_matches_destination(rule, source, target, destination),
        i,
    );
}

/// What is seen of a target is the target, with no routes but its own, each of them permitted.
pub proof fn law_visible_peer_shows_permitted_routes(
    source: NodeRecordView,
    target: NodeRecordView,
    rules: Seq<AclRuleView>,
)
    requires
        visible_peer(source, target, rules) is Some,
    ensures
        ({
            let seen = visible_peer(source, target, rules)->0;
            &&& seen == NodeRecordView { routes: seen.routes, ..target }
            &&& seen.routes.len() <= target.routes.len()
            &&& forall|k: int|
                0 <= k < seen.routes.len() ==> target.routes.contains(#[trigger] seen.routes[k])
            &&& rules.len() > 0 ==> forall|k: int|
                0 <= k < seen.routes.len() ==> route_allowed(
                    source,
                    target,
                    #[trigger] seen.routes[k],
                    rules,
                )
        }),
{
    let keep = |route: RouteView| route_allowed(source, target, route, rules);
    lemma_kept(target.routes, keep, target.routes.len());
    let seen = visible_peer(source, target, rules)->0;
    if rules.len() > 0 {
        assert(seen.routes == kept(target.routes, keep, target.routes.len()));
        assert forall|k: int| 0 <= k < seen.routes.len() implies target.routes.contains(
            #[trigger] seen.routes[k],
        ) by {
            let i = choose|i: int|
                0 <= i < target.routes.len() && target.routes[i] == seen.routes[k];
            assert(target.routes[i] == seen.routes[k]);
        }
        assert forall|k: int| 0 <= k < seen.routes.len() implies route_allowed(
            source,
            target,
            #[trigger] seen.routes[k],
            rules,
        ) by {
            assert(keep(seen.routes[k]));
        }
    } else {
        assert(seen == target);
        assert forall|k: int| 0 <= k < seen.routes.len() implies target.routes.contains(
            #[trigger] seen.routes[k],
        ) by {
            assert(target.routes[k] == seen.routes[k]);
        }
    }
}

/// A rule speaks of traffic exactly where it is for any protocol and each of its sets of roles and
/// tags is empty or has something in common with the side that it is about.
pub proof fn law_rule_names_both_sides(
    rule: AclRuleView,
    source: NodeRecordView,
    target: NodeRecordView,
)
    ensures
        selectors_match(rule, source, target) <==> {
            &&& rule.protocol == TransportProtocol::Any
            &&& (forall|role: Seq<char>| !rule.from_roles.contains(role))
                || rule.from_roles.contains(source.role)
            &&& (forall|role: Seq<char>| !rule.to_roles.contains(role)) || rule.to_roles.contains(
                target.role,
            )
            &&& (forall|tag: Seq<char>| !rule.from_tags.contains(tag)) || exists|tag: Seq<char>|
                rule.from_tags.contains(tag) && source.tags.contains(tag)
            &&& (forall|tag: Seq<char>| !rule.to_tags.contains(tag)) || exists|tag: Seq<char>|
                rule.to_tags.contains(tag) && target.tags.contains(tag)
        },
{
    let none = Set::<Seq<char>>::empty();
    if forall|role: Seq<char>| !rule.from_roles.contains(role) {
        assert(rule.from_roles =~= none);
    }
    if forall|role: Seq<char>| !rule.to_roles.contains(role) {
        assert(rule.to_roles =~= none);
    }
    if forall|tag: Seq<char>| !rule.from_tags.contains(tag) {
        assert(rule.from_tags =~= none);
    }
    if forall|tag: Seq<char>| !rule.to_tags.contains(tag) {
        assert(rule.to_tags =~= none);
    }
}

/// A source sees a target itself exactly where some allowing rule without networks is about the two
/// and no denying rule without networks is.
pub proof fn law_peer_is_permitted_by_plain_rules(
    source: NodeRecordView,
    target: NodeRecordView,
    rules: Seq<AclRuleView>,
)
    ensures
        peer_allowed(source, target, rules) <==> {
            &&& exists|i: int|
                0 <= i < rules.len() && (#[trigger] rules[i]).action == AclAction::Allow
                    && rules[i].routes.len() == 0 && selectors_match(rules[i], source, target)
            &&& forall|i: int|
                0 <= i < rules.len() && (#[trigger] rules[i]).action == AclAction::Deny
                    && rules[i].routes.len() == 0 ==> !selectors_match(rules[i], source, target)
        },
{
    let m = |rule: AclRuleView| rule_matches(rule, source, target, None);
    if exists|i: int|
        0 <= i < rules.len() && (#[trigger] rules[i]).action == AclAction::Allow
            && rules[i].routes.len() == 0 && selectors_match(rules[i], source, target) {
        let i = choose|i: int|
            0 <= i < rules.len() && (#[trigger] rules[i]).action == AclAction::Allow
                && rules[i].routes.len() == 0 && selectors_match(rules[i], source, target);
        assert(m(rules[i]));
    }
    if some_rule(rules, AclAction::Deny, m) {
        let i = choose|i: int|
            0 <= i < rules.len() && (#[trigger] rules[i]).action == AclAction::Deny && m(rules[i]);
        assert(rules[i].routes.len() == 0);
    } else {
        assert forall|i: int|
            0 <= i < rules.len() && (#[trigger] rules[i]).action == AclAction::Deny
                && rules[i].routes.len() == 0 implies !selectors_match(
            rules[i],
            source,
            target,
        ) by {
            assert(!m(rules[i]));
        }
    }
}

/// A route of a target may be used exactly where some allowing rule is about the two and has either
/// no networks or one with all addresses of the route, and no denying rule is about the two that has
/// either no networks or one with an address of the route.
pub proof fn law_route_is_permitted_by_addresses(
    source: NodeRecordView,
    target: NodeRecordView,
    route: RouteView,
    rules: Seq<AclRuleView>,
)
    ensures
        route_allowed(source, target, route, rules) <==> {
            &&& exists|i: int|
                0 <= i < rules.len() && (#[trigger] rules[i]).action == AclAction::Allow
                    && selectors_match(rules[i], source, target) && (rules[i].routes.len() == 0
                    || exists|j: int|
                    0 <= j < rules[i].routes.len() && has_all_of(
                        #[trigger] rules[i].routes[j],
                        route.cidr,
                    ))
            &&& forall|i: int|
                0 <= i < rules.len() && (#[trigger] rules[i]).action == AclAction::Deny
                    && selectors_match(rules[i], source, target) ==> rules[i].routes.len() > 0
                    && forall|j: int|
                    0 <= j < rules[i].routes.len() ==> !has_some_of(
                        #[trigger] rules[i].routes[j],
                        route.cidr,
                    )
        },
{
    let m = |rule: AclRuleView| rule_matches(rule, source, target, Some(route.cidr));
    assert forall|i: int| 0 <= i < rules.len() implies #[trigger] m(rules[i]) == (selectors_match(
        rules[i],
        source,
        target,
    ) && (rules[i].routes.len() == 0 || exists|j: int|
        0 <= j < rules[i].routes.len() && match rules[i].action {
            AclAction::Allow => has_all_of(#[trigger] rules[i].routes[j], route.cidr),
            AclAction::Deny => has_some_of(rules[i].routes[j], route.cidr),
        })) by {
        let rule = rules[i];
        assert forall|j: int| 0 <= j < rule.routes.len() implies (
        #[trigger] rule.routes[j]).encloses(route.cidr) == has_all_of(rule.routes[j], route.cidr)
            && rule.routes[j].meets(route.cidr) == has_some_of(rule.routes[j], route.cidr) by {
            law_enclosure_is_of_all_addresses(rule.routes[j], route.cidr);
            law_overlap_is_a_common_address(rule.routes[j], route.cidr);
            if rule.routes[j].meets(route.cidr) {
                let ip = choose|ip: IpAddr|
                    rule.routes[j].covers(ip) && route.cidr.covers(ip);
                assert(route.cidr.covers(ip));
            }
        }
        if rule_touches(rule, route.cidr) {
            let j = choose|j: int|
                0 <= j < rule.routes.len() && match rule.action {
                    AclAction::Allow => (#[trigger] rule.routes[j]).encloses(route.cidr),
                    AclAction::Deny => rule.routes[j].meets(route.cidr),
                };
            assert(match rule.action {
                AclAction::Allow => has_all_of(rule.routes[j], route.cidr),
                AclAction::Deny => has_some_of(rule.routes[j], route.cidr),
            });
        }
        if exists|j: int|
            0 <= j < rule.routes.len() && match rule.action {
                AclAction::Allow => has_all_of(#[trigger] rule.routes[j], route.cidr),
                AclAction::Deny => has_some_of(rule.routes[j], route.cidr),
            } {
            let j = choose|j: int|
                0 <= j < rule.routes.len() && match rule.action {
                    AclAction::Allow => has_all_of(#[trigger] rule.routes[j], route.cidr),
                    AclAction::Deny => has_some_of(rule.routes[j], route.cidr),
                };
            assert(match rule.action {
                AclAction::Allow => rule.routes[j].encloses(route.cidr),
                AclAction::Deny => rule.routes[j].meets(route.cidr),
            });
        }
    }
    if route_allowed(source, target, route, rules) {
        let i = choose|i: int|
            0 <= i < rules.len() && (#[trigger] rules[i]).action == AclAction::Allow && m(rules[i]);
        assert(m(rules[i]));
        assert forall|d: int|
            0 <= d < rules.len() && (#[trigger] rules[d]).action == AclAction::Deny
                && selectors_match(rules[d], source, target) implies rules[d].routes.len() > 0
            && forall|j: int|
            0 <= j < rules[d].routes.len() ==> !has_some_of(
                #[trigger] rules[d].routes[j],
                route.cidr,
            ) by {
            assert(!m(rules[d]));
        }
    } else if some_rule(rules, AclAction::Deny, m) {
        let d = choose|i: int|
            0 <= i < rules.len() && (#[trigger] rules[i]).action == AclAction::Deny && m(rules[i]);
        assert(m(rules[d]));
    } else {
        assert forall|i: int|
            0 <= i < rules.len() && (#[trigger] rules[i]).action == AclAction::Allow
                && selectors_match(rules[i], source, target) implies rules[i].routes.len() > 0
            && forall|j: int|
            0 <= j < rules[i].routes.len() ==> !has_all_of(
                #[trigger] rules[i].routes[j],
                route.cidr,
            ) by {
            assert(!m(rules[i]));
        }
    }
}

/// A destination may be reached through a target exactly where some allowing rule is about the two
/// and has either no networks or one with the destination, and no denying rule is and has.
pub proof fn law_destination_is_permitted_by_address(
    source: NodeRecordView,
    target: NodeRecordView,
    destination: IpAddr,
    rules: Seq<AclRuleView>,
)
    ensures
        destination_allowed(source, target, destination, rules) <==> {
            &&& exists|i: int|
                0 <= i < rules.len() && (#[trigger] rules[i]).action == AclAction::Allow
                    && selectors_match(rules[i], source, target) && (rules[i].routes.len() == 0
                    || exists|j: int|
                    0 <= j < rules[i].routes.len() && (#[trigger] rules[i].routes[j]).covers(
                        destination,
                    ))
            &&& forall|i: int|
                0 <= i < rules.len() && (#[trigger] rules[i]).action == AclAction::Deny
                    && selectors_match(rules[i], source, target) ==> rules[i].routes.len() > 0
                    && forall|j: int|
                    0 <= j < rules[i].routes.len() ==> !(#[trigger] rules[i].routes[j]).covers(
                        destination,
                    )
        },
{
    let m = |rule: AclRuleView| rule_matches_destination(rule, source, target, destination);
    if destination_allowed(source, target, destination, rules) {
        let i = choose|i: int|
            0 <= i < rules.len() && (#[trigger] rules[i]).action == AclAction::Allow && m(rules[i]);
        assert(rules[i].action == AclAction::Allow);
        assert forall|d: int|
            0 <= d < rules.len() && (#[trigger] rules[d]).action == AclAction::Deny
                && selectors_match(rules[d], source, target) implies rules[d].routes.len() > 0
            && forall|j: int|
            0 <= j < rules[d].routes.len() ==> !(#[trigger] rules[d].routes[j]).covers(
                destination,
            ) by {
            assert(!m(rules[d]));
        }
    } else if some_rule(rules, AclAction::Deny, m) {
        let d = choose|i: int|
            0 <= i < rules.len() && (#[trigger] rules[i]).action == AclAction::Deny && m(rules[i]);
        assert(rules[d].action == AclAction::Deny);
    } else {
        assert forall|i: int|
            0 <= i < rules.len() && (#[trigger] rules[i]).action == AclAction::Allow
                && selectors_match(rules[i], source, target) implies rules[i].routes.len() > 0
            && forall|j: int|
            0 <= j < rules[i].routes.len() ==> !(#[trigger] rules[i].routes[j]).covers(
                destination,
            ) by {
            assert(!m(rules[i]));
        }
    }
}

/// Without rules a target is seen as it is. With rules it is seen exactly where it is permitted
/// itself or one of its routes is, and then with exactly those of its routes that are permitted, in
/// their order, and with everything else of it.
pub proof fn law_target_is_seen_with_its_permitted_routes(
    source: NodeRecordView,
    target: NodeRecordView,
    rules: Seq<AclRuleView>,
)
    ensures
        rules.len() == 0 ==> visible_peer(source, target, rules) == Some(target),
        rules.len() > 0 ==> (visible_peer(source, target, rules) is Some <==> peer_allowed(
            source,
            target,
            rules,
        ) || exists|k: int|
            0 <= k < target.routes.len() && route_allowed(
                source,
                target,
                #[trigger] target.routes[k],
                rules,
            )),
        rules.len() > 0 ==> (visible_peer(source, target, rules) matches Some(seen) ==> {
            &&& seen.node_id == target.node_id
            &&& seen.vpn_ip == target.vpn_ip
            &&& seen.endpoint_candidates == target.endpoint_candidates
            &&& seen.wireguard_public_key == target.wireguard_public_key
            &&& seen == (NodeRecordView { routes: seen.routes, ..target })
            &&& forall|route: RouteView| #[trigger]
                seen.routes.contains(route) <==> target.routes.contains(route) && route_allowed(
                    source,
                    target,
                    route,
                    rules,
                )
            &&& (forall|k: int|
                0 <= k < target.routes.len() ==> route_allowed(
                    source,
                    target,
                    #[trigger] target.routes[k],
                    rules,
                )) ==> seen.routes == target.routes
        }),
{
    if rules.len() > 0 {
        let keep = |route: RouteView| route_allowed(source, target, route, rules);
        let n = target.routes.len();
        let routes = kept(target.routes, keep, n);
        lemma_kept_members(target.routes, keep);
        assert(allowed_routes(source, target, rules) == routes);
        if routes.len() > 0 {
            assert(routes.contains(routes[0]));
            let i = choose|i: int| 0 <= i < n && target.routes[i] == routes[0];
            assert(route_allowed(source, target, target.routes[i], rules));
        }
        if exists|k: int|
            0 <= k < n && route_allowed(source, target, #[trigger] target.routes[k], rules) {
            let k = choose|k: int|
                0 <= k < n && route_allowed(source, target, #[trigger] target.routes[k], rules);
            assert(keep(target.routes[k]));
            assert(routes.contains(target.routes[k]));
        }
        if forall|k: int|
            0 <= k < n ==> route_allowed(source, target, #[trigger] target.routes[k], rules) {
            assert forall|i: int| 0 <= i < n implies #[trigger] keep(target.routes[i]) == (i >= 0) by {
                assert(route_allowed(source, target, target.routes[i], rules));
            }
            lemma_kept_from(target.routes, keep, 0, n);
            assert(target.routes.subrange(0, n as int) =~= target.routes);
        }
        if visible_peer(source, target, rules) is Some {
            let seen = visible_peer(source, target, rules)->0;
            assert(seen.routes == routes);
            assert forall|route: RouteView| #[trigger] seen.routes.contains(route)
                <==> target.routes.contains(route) && route_allowed(
                source,
                target,
                route,
                rules,
            ) by {
                assert(keep(route) == route_allowed(source, target, route, rules));
            }
        }
    }
}

/// Where a denying rule is about the source and the target, no route is shown that has an address in
/// common with one of its networks, and none at all where it has no networks; and nothing that is
/// shown goes without an allowing rule that has no networks or one with all addresses of the route.
pub proof fn law_denied_addresses_are_not_shown(
    source: NodeRecordView,
    target: NodeRecordView,
    rules: Seq<AclRuleView>,
    i: int,
    route: RouteView,
    ip: IpAddr,
)
    requires
        0 <= i < rules.len(),
        rules[i].action == AclAction::Deny,
        selectors_match(rules[i], source, target),
        rules[i].routes.len() == 0 || (route.cidr.covers(ip) && exists|j: int|
            0 <= j < rules[i].routes.len() && (#[trigger] rules[i].routes[j]).covers(ip)),
    ensures
        visible_peer(source, target, rules) matches Some(seen) ==> !seen.routes.contains(route),
{
    law_target_is_seen_with_its_permitted_routes(source, target, rules);
    law_route_is_permitted_by_addresses(source, target, route, rules);
    if rules[i].routes.len() > 0 {
        let j = choose|j: int|
            0 <= j < rules[i].routes.len() && (#[trigger] rules[i].routes[j]).covers(ip);
        assert(rules[i].routes[j].covers(ip));
    }
}

} // verus!
