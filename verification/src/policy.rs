//! Cluster policies: what is asked of one before it takes effect.

use vstd::prelude::*;

use crate::config::ProtocolLimits;
use crate::error::{reason_of, refusal, ControlPlaneError, ControlPlaneErrorView};
use crate::lists::{
    first_in, lemma_first_in_extends, lemma_first_in_none,
};
use crate::net::{ipnets_overlap, Cidr};
use crate::routes::{
    restricted_advertised_route_cidr_reason, restricted_kind, MAX_OVERLAY_ROUTE_SCOPES,
};
use crate::text::{
    byte_len, byte_length, contains_special_char, decimal, decimal_text, has_special_char,
};
use crate::types::{
    views, AclRule, AclRuleView, ClusterPolicy, ClusterPolicyView, TransportProtocol,
};

verus! {

/// How many rules a policy may have, and how many networks a rule.
pub const MAX_ACL_ENTRIES: usize = 256;

/// The longest identifier of a rule, in bytes.
pub const MAX_ACL_RULE_ID_BYTES: usize = 128;

/// What std writes for a text in quotation marks, with the special characters escaped.
pub uninterp spec fn quoted(text: Seq<char>) -> Seq<char>;

/// Calls the `Debug` of `str`. What it writes is a function of the text alone; which text it is,
/// the contract does not say.
#[verifier::external_body]
pub(crate) fn quoted_text(text: &str) -> (r: String)
    ensures
        r@ == quoted(text@),
{
    format!("{text:?}")
}

/// The first `n` numbers, separated by commas.
pub open spec fn comma_list(numbers: Seq<u16>, n: nat) -> Seq<char>
    decreases n,
{
    if n == 0 {
        Seq::empty()
    } else if n == 1 {
        decimal(numbers[0] as nat)
    } else {
        comma_list(numbers, (n - 1) as nat) + ", "@ + decimal(numbers[n - 1] as nat)
    }
}

fn comma_list_text(numbers: &Vec<u16>) -> (r: String)
    ensures
        r@ == comma_list(numbers@, numbers@.len()),
{
    let mut text = String::new();
    let mut i: usize = 0;
    while i < numbers.len()
        invariant
            i <= numbers@.len(),
            text@ == comma_list(numbers@, i as nat),
        decreases numbers@.len() - i,
    {
        let number = decimal_text(numbers[i] as u64);
        if i == 0 {
            text = number;
        } else {
            text = text.concat(", ").concat(number.as_str());
        }
        i = i + 1;
    }
    text
}

/// Why the first of the scopes `0..n` that meets a scope is in its way.
pub open spec fn scope_overlap(scopes: Seq<Cidr>, scope: Cidr, n: nat) -> Option<Seq<char>> {
    first_in(
        n,
        |j: int|
            if scopes[j].meets(scope) {
                Some(
                    "overlay route scope "@ + scope.display() + " overlaps "@ + scopes[j].display(),
                )
            } else {
                None
            },
    )
}

/// Why the scope at position `i` is not accepted.
pub open spec fn route_scope_fault(scopes: Seq<Cidr>, i: int) -> Option<Seq<char>> {
    let scope = scopes[i];
    if restricted_kind(scope) is Some {
        Some(
            "overlay route scope "@ + scope.display() + " includes "@ + restricted_kind(scope)->0
                + " addresses"@,
        )
    } else if scope != scope.canonical() {
        Some(
            "overlay route scope "@ + scope.display() + " must be canonical "@
                + scope.canonical().display(),
        )
    } else {
        scope_overlap(scopes, scope, i as nat)
    }
}

/// Why one of the first `n` scopes is not accepted.
pub open spec fn first_route_scope_fault(scopes: Seq<Cidr>, n: nat) -> Option<Seq<char>> {
    first_in(n, |i: int| route_scope_fault(scopes, i))
}

/// Why the rule at position `i` is not accepted.
pub open spec fn rule_fault(rules: Seq<AclRuleView>, i: int) -> Option<Seq<char>> {
    let rule = rules[i];
    if rule.protocol != TransportProtocol::Any {
        Some(
            "ACL rule "@ + quoted(rule.id) + " uses protocol "@ + rule.protocol.name()
                + "; the WireGuard dataplane currently supports only protocol=any ACL rules"@,
        )
    } else if rule.id.len() == 0 || byte_len(rule.id) > MAX_ACL_RULE_ID_BYTES {
        Some("ACL rule IDs must be 1 to 128 bytes: "@ + quoted(rule.id))
    } else if has_special_char(rule.id, true) {
        Some(
            "ACL rule ID "@ + quoted(rule.id) + " contains whitespace or control characters"@,
        )
    } else if exists|j: int| 0 <= j < i && (#[trigger] rules[j]).id == rule.id {
        Some("ACL rule ID "@ + quoted(rule.id) + " is duplicated"@)
    } else if rule.routes.len() > MAX_ACL_ENTRIES {
        Some("ACL rule "@ + quoted(rule.id) + " contains more than 256 routes"@)
    } else {
        None
    }
}

/// Why one of the first `n` rules is not accepted.
pub open spec fn first_rule_fault(rules: Seq<AclRuleView>, n: nat) -> Option<Seq<char>> {
    first_in(n, |i: int| rule_fault(rules, i))
}

/// Why a duration of the policy is not accepted: none may be zero.
pub open spec fn duration_fault(policy: ClusterPolicyView) -> Option<Seq<char>> {
    if policy.idle_timeout_seconds == 0 {
        Some("idle_timeout_seconds must be greater than zero"@)
    } else if policy.relay_health_ttl_seconds == 0 {
        Some("relay_health_ttl_seconds must be greater than zero"@)
    } else if policy.endpoint_candidate_ttl_seconds == 0 {
        Some("endpoint_candidate_ttl_seconds must be greater than zero"@)
    } else if policy.path_state_ttl_seconds == 0 {
        Some("path_state_ttl_seconds must be greater than zero"@)
    } else if policy.path_quality_observation_ttl_seconds == 0 {
        Some("path_quality_observation_ttl_seconds must be greater than zero"@)
    } else if policy.nat_classification_ttl_seconds == 0 {
        Some("nat_classification_ttl_seconds must be greater than zero"@)
    } else {
        None
    }
}

/// Why the shape of the overlay that the policy asks for is not accepted.
pub open spec fn overlay_fault(policy: ClusterPolicyView, limits: ProtocolLimits) -> Option<
    Seq<char>,
> {
    if !(limits.min_overlay_block_size <= policy.overlay_block_size
        <= limits.max_overlay_block_size) {
        Some(
            "overlay_block_size must be between "@ + decimal(limits.min_overlay_block_size as nat)
                + " and "@ + decimal(limits.max_overlay_block_size as nat),
        )
    } else if !limits.supported_max_degrees@.contains(policy.overlay_max_degree) {
        Some(
            "overlay_max_degree must be one of ["@ + comma_list(
                limits.supported_max_degrees@,
                limits.supported_max_degrees@.len(),
            ) + "]"@,
        )
    } else if policy.overlay_direct_shortcut_limit > limits.max_overlay_degree {
        Some(
            "overlay_direct_shortcut_limit must be at most "@ + decimal(
                limits.max_overlay_degree as nat,
            ),
        )
    } else if policy.overlay_on_demand_peer_limit > limits.max_overlay_degree {
        Some(
            "overlay_on_demand_peer_limit must be at most "@ + decimal(
                limits.max_overlay_degree as nat,
            ),
        )
    } else {
        None
    }
}

/// Why a policy is not accepted.
pub open spec fn policy_fault(policy: ClusterPolicyView, limits: ProtocolLimits) -> Option<
    Seq<char>,
> {
    let scopes = policy.overlay_route_scopes;
    if overlay_fault(policy, limits) is Some {
        overlay_fault(policy, limits)
    } else if scopes.len() > MAX_OVERLAY_ROUTE_SCOPES {
        Some("overlay_route_scopes must contain at most 64 CIDRs"@)
    } else if first_route_scope_fault(scopes, scopes.len()) is Some {
        first_route_scope_fault(scopes, scopes.len())
    } else if duration_fault(policy) is Some {
        duration_fault(policy)
    } else if policy.nat_classification_min_confidence_percent > 100 {
        Some("nat_classification_min_confidence_percent must be at most 100"@)
    } else if policy.acl_rules.len() > MAX_ACL_ENTRIES {
        Some("acl_rules must contain at most 256 rules"@)
    } else {
        first_rule_fault(policy.acl_rules, policy.acl_rules.len())
    }
}

/// The refusal of a policy, where there is a reason for it.
pub open spec fn policy_rejection(reason: Option<Seq<char>>) -> Option<ControlPlaneErrorView> {
    match reason {
        Some(reason) => Some(ControlPlaneErrorView::InvalidClusterPolicy { reason }),
        None => None,
    }
}

fn reject_policy(r: Result<(), String>) -> (out: Result<(), ControlPlaneError>)
    ensures
        refusal(out) == policy_rejection(reason_of(r)),
{
    match r {
        Ok(()) => Ok(()),
        Err(reason) => Err(ControlPlaneError::InvalidClusterPolicy { reason }),
    }
}

fn has_degree(degrees: &Vec<u16>, degree: u16) -> (r: bool)
    ensures
        r == degrees@.contains(degree),
{
    let mut i: usize = 0;
    while i < degrees.len()
        invariant
            i <= degrees@.len(),
            forall|k: int| 0 <= k < i ==> degrees@[k] != degree,
        decreases degrees@.len() - i,
    {
        if degrees[i] == degree {
            return true;
        }
        i = i + 1;
    }
    false
}

fn check_overlay(policy: &ClusterPolicy, limits: &ProtocolLimits) -> (r: Result<(), String>)
    ensures
        reason_of(r) == overlay_fault(policy@, *limits),
{
    if policy.overlay_block_size < limits.min_overlay_block_size || policy.overlay_block_size
        > limits.max_overlay_block_size {
        return Err(
            "overlay_block_size must be between ".to_owned().concat(
                decimal_text(limits.min_overlay_block_size as u64).as_str(),
            ).concat(" and ").concat(decimal_text(limits.max_overlay_block_size as u64).as_str()),
        );
    }
    if !has_degree(&limits.supported_max_degrees, policy.overlay_max_degree) {
        return Err(
            "overlay_max_degree must be one of [".to_owned().concat(
                comma_list_text(&limits.supported_max_degrees).as_str(),
            ).concat("]"),
        );
    }
    if policy.overlay_direct_shortcut_limit > limits.max_overlay_degree {
        return Err(
            "overlay_direct_shortcut_limit must be at most ".to_owned().concat(
                decimal_text(limits.max_overlay_degree as u64).as_str(),
            ),
        );
    }
    if policy.overlay_on_demand_peer_limit > limits.max_overlay_degree {
        return Err(
            "overlay_on_demand_peer_limit must be at most ".to_owned().concat(
                decimal_text(limits.max_overlay_degree as u64).as_str(),
            ),
        );
    }
    Ok(())
}

fn check_scope_overlap(scopes: &Vec<Cidr>, i: usize) -> (r: Result<(), String>)
    requires
        i < scopes@.len(),
    ensures
        reason_of(r) == scope_overlap(scopes@, scopes@[i as int], i as nat),
{
    let scope = scopes[i];
    let ghost f = |j: int|
        if scopes@[j].meets(scope) {
            Some("overlay route scope "@ + scope.display() + " overlaps "@ + scopes@[j].display())
        } else {
            None
        };
    let mut j: usize = 0;
    while j < i
        invariant
            j <= i < scopes@.len(),
            f == (|j: int|
                if scopes@[j].meets(scope) {
                    Some(
                        "overlay route scope "@ + scope.display() + " overlaps "@
                            + scopes@[j].display(),
                    )
                } else {
                    None
                }),
            first_in(j as nat, f) is None,
            scope_overlap(scopes@, scopes@[i as int], i as nat) == first_in(i as nat, f),
        decreases i - j,
    {
        if ipnets_overlap(&scopes[j], &scope) {
            proof {
                lemma_first_in_extends((j + 1) as nat, i as nat, f);
            }
            return Err(
                "overlay route scope ".to_owned().concat(scope.to_text().as_str()).concat(
                    " overlaps ",
                ).concat(scopes[j].to_text().as_str()),
            );
        }
        j = j + 1;
    }
    Ok(())
}

fn check_route_scope(scopes: &Vec<Cidr>, i: usize) -> (r: Result<(), String>)
    requires
        i < scopes@.len(),
    ensures
        reason_of(r) == route_scope_fault(scopes@, i as int),
{
    let scope = scopes[i];
    if let Some(kind) = restricted_advertised_route_cidr_reason(&scope) {
        return Err(
            "overlay route scope ".to_owned().concat(scope.to_text().as_str()).concat(
                " includes ",
            ).concat(kind).concat(" addresses"),
        );
    }
    let canonical = scope.trunc();
    if scope != canonical {
        return Err(
            "overlay route scope ".to_owned().concat(scope.to_text().as_str()).concat(
                " must be canonical ",
            ).concat(canonical.to_text().as_str()),
        );
    }
    check_scope_overlap(scopes, i)
}

fn check_route_scopes(scopes: &Vec<Cidr>) -> (r: Result<(), String>)
    ensures
        reason_of(r) == first_route_scope_fault(scopes@, scopes@.len()),
{
    let mut i: usize = 0;
    while i < scopes.len()
        invariant
            i <= scopes@.len(),
            first_route_scope_fault(scopes@, i as nat) is None,
        decreases scopes@.len() - i,
    {
        let checked = check_route_scope(scopes, i);
        if checked.is_err() {
            proof {
                lemma_first_in_extends(
                    (i + 1) as nat,
                    scopes@.len(),
                    |k: int| route_scope_fault(scopes@, k),
                );
            }
            return checked;
        }
        i = i + 1;
    }
    Ok(())
}

fn check_durations(policy: &ClusterPolicy) -> (r: Result<(), String>)
    ensures
        reason_of(r) == duration_fault(policy@),
{
    if policy.idle_timeout_seconds == 0 {
        Err("idle_timeout_seconds must be greater than zero".to_owned())
    } else if policy.relay_health_ttl_seconds == 0 {
        Err("relay_health_ttl_seconds must be greater than zero".to_owned())
    } else if policy.endpoint_candidate_ttl_seconds == 0 {
        Err("endpoint_candidate_ttl_seconds must be greater than zero".to_owned())
    } else if policy.path_state_ttl_seconds == 0 {
        Err("path_state_ttl_seconds must be greater than zero".to_owned())
    } else if policy.path_quality_observation_ttl_seconds == 0 {
        Err("path_quality_observation_ttl_seconds must be greater than zero".to_owned())
    } else if policy.nat_classification_ttl_seconds == 0 {
        Err("nat_classification_ttl_seconds must be greater than zero".to_owned())
    } else {
        Ok(())
    }
}

fn repeats_rule_id(rules: &Vec<AclRule>, i: usize) -> (r: bool)
    requires
        i < rules@.len(),
    ensures
        r == exists|j: int|
            0 <= j < i && (#[trigger] views(rules@)[j]).id == views(rules@)[i as int].id,
{
    let mut j: usize = 0;
    while j < i
        invariant
            j <= i,
            i < rules@.len(),
            forall|k: int|
                0 <= k < j ==> (#[trigger] views(rules@)[k]).id != views(rules@)[i as int].id,
        decreases i - j,
    {
        if rules[j].id == rules[i].id {
            assert(views(rules@)[j as int].id == views(rules@)[i as int].id);
            return true;
        }
        j = j + 1;
    }
    false
}

fn check_rule(rules: &Vec<AclRule>, i: usize) -> (r: Result<(), String>)
    requires
        i < rules@.len(),
    ensures
        reason_of(r) == rule_fault(views(rules@), i as int),
{
    let rule = &rules[i];
    assert(views(rules@)[i as int] == rule@);
    let id = rule.id.as_str();
    if rule.protocol != TransportProtocol::Any {
        return Err(
            "ACL rule ".to_owned().concat(quoted_text(id).as_str()).concat(
                " uses protocol ",
            ).concat(rule.protocol.as_str()).concat(
                "; the WireGuard dataplane currently supports only protocol=any ACL rules",
            ),
        );
    }
    if id.unicode_len() == 0 || byte_length(id) > MAX_ACL_RULE_ID_BYTES {
        return Err(
            "ACL rule IDs must be 1 to 128 bytes: ".to_owned().concat(quoted_text(id).as_str()),
        );
    }
    if contains_special_char(id, true) {
        return Err(
            "ACL rule ID ".to_owned().concat(quoted_text(id).as_str()).concat(
                " contains whitespace or control characters",
            ),
        );
    }
    if repeats_rule_id(rules, i) {
        return Err(
            "ACL rule ID ".to_owned().concat(quoted_text(id).as_str()).concat(" is duplicated"),
        );
    }
    if rule.routes.len() > MAX_ACL_ENTRIES {
        return Err(
            "ACL rule ".to_owned().concat(quoted_text(id).as_str()).concat(
                " contains more than 256 routes",
            ),
        );
    }
    Ok(())
}

fn check_rules(rules: &Vec<AclRule>) -> (r: Result<(), String>)
    ensures
        reason_of(r) == first_rule_fault(views(rules@), rules@.len()),
{
    let ghost all = views(rules@);
    let mut i: usize = 0;
    while i < rules.len()
        invariant
            i <= rules@.len(),
            all == views(rules@),
            first_rule_fault(all, i as nat) is None,
        decreases rules@.len() - i,
    {
        let checked = check_rule(rules, i);
        if checked.is_err() {
            proof {
                lemma_first_in_extends((i + 1) as nat, all.len(), |k: int| rule_fault(all, k));
            }
            return checked;
        }
        i = i + 1;
    }
    Ok(())
}

/// Checks a policy.
pub fn validate_cluster_policy(policy: &ClusterPolicy, limits: &ProtocolLimits) -> (r: Result<
    (),
    ControlPlaneError,
>)
    ensures
        refusal(r) == policy_rejection(policy_fault(policy@, *limits)),
{
    reject_policy(check_overlay(policy, limits))?;
    if policy.overlay_route_scopes.len() > MAX_OVERLAY_ROUTE_SCOPES {
        return Err(
            ControlPlaneError::InvalidClusterPolicy {
                reason: "overlay_route_scopes must contain at most 64 CIDRs".to_owned(),
            },
        );
    }
    reject_policy(check_route_scopes(&policy.overlay_route_scopes))?;
    reject_policy(check_durations(policy))?;
    if policy.nat_classification_min_confidence_percent > 100 {
        return Err(
            ControlPlaneError::InvalidClusterPolicy {
                reason: "nat_classification_min_confidence_percent must be at most 100".to_owned(),
            },
        );
    }
    if policy.acl_rules.len() > MAX_ACL_ENTRIES {
        return Err(
            ControlPlaneError::InvalidClusterPolicy {
                reason: "acl_rules must contain at most 256 rules".to_owned(),
            },
        );
    }
    reject_policy(check_rules(&policy.acl_rules))
}

/// Why a scope may not be captured: it has addresses of the VPN pool.
pub open spec fn scope_pool_fault(scope: Cidr, vpn_pool: Cidr) -> Option<Seq<char>> {
    if scope.meets(vpn_pool) {
        Some(
            "overlay route scope "@ + scope.display() + " overlaps VPN pool "@
                + vpn_pool.display(),
        )
    } else {
        None
    }
}

/// Why one of the first `n` scopes may not be captured.
pub open spec fn first_scope_pool_fault(scopes: Seq<Cidr>, vpn_pool: Cidr, n: nat) -> Option<
    Seq<char>,
> {
    first_in(n, |i: int| scope_pool_fault(scopes[i], vpn_pool))
}

/// Checks that no scope of a policy has addresses of the VPN pool.
pub fn validate_overlay_route_scopes_against_vpn_pool(policy: &ClusterPolicy, vpn_pool: Cidr) -> (r:
    Result<(), ControlPlaneError>)
    ensures
        refusal(r) == policy_rejection(
            first_scope_pool_fault(
                policy@.overlay_route_scopes,
                vpn_pool,
                policy@.overlay_route_scopes.len(),
            ),
        ),
{
    let scopes = &policy.overlay_route_scopes;
    let mut i: usize = 0;
    while i < scopes.len()
        invariant
            i <= scopes@.len(),
            scopes@ == policy@.overlay_route_scopes,
            first_scope_pool_fault(scopes@, vpn_pool, i as nat) is None,
        decreases scopes@.len() - i,
    {
        if ipnets_overlap(&scopes[i], &vpn_pool) {
            proof {
                lemma_first_in_extends(
                    (i + 1) as nat,
                    scopes@.len(),
                    |k: int| scope_pool_fault(scopes@[k], vpn_pool),
                );
            }
            return Err(
                ControlPlaneError::InvalidClusterPolicy {
                    reason: "overlay route scope ".to_owned().concat(
                        scopes[i].to_text().as_str(),
                    ).concat(" overlaps VPN pool ").concat(vpn_pool.to_text().as_str()),
                },
            );
        }
        i = i + 1;
    }
    Ok(())
}

/// The scopes of an accepted policy are canonical, have no restricted addresses, and no two of
/// them share an address.
pub proof fn law_accepted_scopes_are_disjoint(
    policy: ClusterPolicyView,
    limits: ProtocolLimits,
    i: int,
    j: int,
)
    requires
        policy_fault(policy, limits) is None,
        0 <= i < policy.overlay_route_scopes.len(),
        0 <= j < policy.overlay_route_scopes.len(),
        i != j,
    ensures
        policy.overlay_route_scopes.len() <= MAX_OVERLAY_ROUTE_SCOPES,
        policy.overlay_route_scopes[i] == policy.overlay_route_scopes[i].canonical(),
        restricted_kind(policy.overlay_route_scopes[i]) is None,
        !policy.overlay_route_scopes[i].meets(policy.overlay_route_scopes[j]),
{
    let scopes = policy.overlay_route_scopes;
    let f = |k: int| route_scope_fault(scopes, k);
    lemma_first_in_none(scopes.len(), f);
    assert(f(i) is None && f(j) is None);
    let (low, high) = if i < j {
        (i, j)
    } else {
        (j, i)
    };
    let g = |k: int|
        if scopes[k].meets(scopes[high]) {
            Some(
                "overlay route scope "@ + scopes[high].display() + " overlaps "@
                    + scopes[k].display(),
            )
        } else {
            None
        };
    assert(scope_overlap(scopes, scopes[high], high as nat) == first_in(high as nat, g));
    lemma_first_in_none(high as nat, g);
    assert(g(low) is None);
    crate::net::law_overlap_is_symmetric(scopes[i], scopes[j]);
}

/// In an accepted policy each rule speaks of any protocol and has an identifier of its own.
pub proof fn law_accepted_rules_are_told_apart(
    policy: ClusterPolicyView,
    limits: ProtocolLimits,
    i: int,
    j: int,
)
    requires
        policy_fault(policy, limits) is None,
        0 <= i < j < policy.acl_rules.len(),
    ensures
        policy.acl_rules.len() <= MAX_ACL_ENTRIES,
        policy.acl_rules[i].protocol == TransportProtocol::Any,
        policy.acl_rules[j].protocol == TransportProtocol::Any,
        policy.acl_rules[i].id != policy.acl_rules[j].id,
{
    let rules = policy.acl_rules;
    let f = |k: int| rule_fault(rules, k);
    lemma_first_in_none(rules.len(), f);
    assert(f(i) is None && f(j) is None);
}

/// A policy is accepted exactly where its overlay can be built, its route scopes are few, canonical,
/// unrestricted and without a common address, its durations are positive, its confidence is a
/// percentage, and its rules are few, for any protocol, soundly and differently named and with few
/// networks each.
pub proof fn law_sound_policies_are_accepted(policy: ClusterPolicyView, limits: ProtocolLimits)
    ensures
        policy_fault(policy, limits) is None <==> {
            let scopes = policy.overlay_route_scopes;
            let rules = policy.acl_rules;
            &&& limits.min_overlay_block_size <= policy.overlay_block_size
            &&& policy.overlay_block_size <= limits.max_overlay_block_size
            &&& limits.supported_max_degrees@.contains(policy.overlay_max_degree)
            &&& policy.overlay_direct_shortcut_limit <= limits.max_overlay_degree
            &&& policy.overlay_on_demand_peer_limit <= limits.max_overlay_degree
            &&& scopes.len() <= 64
            &&& forall|i: int|
                0 <= i < scopes.len() ==> restricted_kind(#[trigger] scopes[i]) is None
                    && scopes[i].canonical() == scopes[i]
            &&& forall|i: int, j: int|
                0 <= j < i < scopes.len() ==> !(#[trigger] scopes[j]).meets(#[trigger] scopes[i])
            &&& policy.idle_timeout_seconds > 0
            &&& policy.relay_health_ttl_seconds > 0
            &&& policy.endpoint_candidate_ttl_seconds > 0
            &&& policy.path_state_ttl_seconds > 0
            &&& policy.path_quality_observation_ttl_seconds > 0
            &&& policy.nat_classification_ttl_seconds > 0
            &&& policy.nat_classification_min_confidence_percent <= 100
            &&& rules.len() <= 256
            &&& forall|i: int|
                0 <= i < rules.len() ==> (#[trigger] rules[i]).protocol == TransportProtocol::Any
                    && rules[i].id.len() > 0 && byte_len(rules[i].id) <= 128 && !has_special_char(
                    rules[i].id,
                    true,
                ) && rules[i].routes.len() <= 256
            &&& forall|i: int, j: int|
                0 <= j < i < rules.len() ==> (#[trigger] rules[j]).id != (#[trigger] rules[i]).id
        },
{
    let scopes = policy.overlay_route_scopes;
    let rules = policy.acl_rules;
    let f = |i: int| route_scope_fault(scopes, i);
    let g = |i: int| rule_fault(rules, i);
    crate::lists::lemma_first_in_none(scopes.len(), f);
    crate::lists::lemma_first_in_none(rules.len(), g);
    assert forall|i: int| 0 <= i < scopes.len() implies (#[trigger] f(i) is None <==> {
        &&& restricted_kind(scopes[i]) is None
        &&& scopes[i].canonical() == scopes[i]
        &&& forall|j: int| 0 <= j < i ==> !(#[trigger] scopes[j]).meets(scopes[i])
    }) by {
        let scope = scopes[i];
        let h = |j: int|
            if scopes[j].meets(scope) {
                Some(
                    "overlay route scope "@ + scope.display() + " overlaps "@ + scopes[j].display(),
                )
            } else {
                None
            };
        crate::lists::lemma_first_in_none(i as nat, h);
        if first_in(i as nat, h) is None {
            assert forall|j: int| 0 <= j < i implies !(#[trigger] scopes[j]).meets(scopes[i]) by {
                assert(h(j) is None);
            }
        }
    }
    assert(first_route_scope_fault(scopes, scopes.len()) is None <==> ((forall|i: int|
        0 <= i < scopes.len() ==> restricted_kind(#[trigger] scopes[i]) is None
            && scopes[i].canonical() == scopes[i]) && (forall|i: int, j: int|
        0 <= j < i < scopes.len() ==> !(#[trigger] scopes[j]).meets(#[trigger] scopes[i])))) by {
        if first_route_scope_fault(scopes, scopes.len()) is None {
            assert forall|i: int| 0 <= i < scopes.len() implies restricted_kind(
                #[trigger] scopes[i],
            ) is None && scopes[i].canonical() == scopes[i] by {
                assert(f(i) is None);
            }
            assert forall|i: int, j: int| 0 <= j < i < scopes.len() implies !(
            #[trigger] scopes[j]).meets(#[trigger] scopes[i]) by {
                assert(f(i) is None);
            }
        }
    }
    assert(first_rule_fault(rules, rules.len()) is None <==> ((forall|i: int|
        0 <= i < rules.len() ==> (#[trigger] rules[i]).protocol == TransportProtocol::Any
            && rules[i].id.len() > 0 && byte_len(rules[i].id) <= 128 && !has_special_char(
            rules[i].id,
            true,
        ) && rules[i].routes.len() <= 256) && (forall|i: int, j: int|
        0 <= j < i < rules.len() ==> (#[trigger] rules[j]).id != (#[trigger] rules[i]).id))) by {
        if first_rule_fault(rules, rules.len()) is None {
            assert forall|i: int| 0 <= i < rules.len() implies (#[trigger] rules[i]).protocol
                == TransportProtocol::Any && rules[i].id.len() > 0 && byte_len(rules[i].id) <= 128
                && !has_special_char(rules[i].id, true) && rules[i].routes.len() <= 256 by {
                assert(g(i) is None);
            }
            assert forall|i: int, j: int| 0 <= j < i < rules.len() implies (
            #[trigger] rules[j]).id != (#[trigger] rules[i]).id by {
                assert(g(i) is None);
            }
        }
    }
}

/// A policy fits a pool exactly where none of its route scopes has an address in common with it.
pub proof fn law_scopes_stay_out_of_the_pool(scopes: Seq<Cidr>, vpn_pool: Cidr)
    ensures
        first_scope_pool_fault(scopes, vpn_pool, scopes.len()) is None <==> forall|i: int|
            0 <= i < scopes.len() ==> !(#[trigger] scopes[i]).meets(vpn_pool),
{
    let f = |i: int| scope_pool_fault(scopes[i], vpn_pool);
    crate::lists::lemma_first_in_none(scopes.len(), f);
    if first_scope_pool_fault(scopes, vpn_pool, scopes.len()) is None {
        assert forall|i: int| 0 <= i < scopes.len() implies !(#[trigger] scopes[i]).meets(
            vpn_pool,
        ) by {
            assert(f(i) is None);
        }
    }
}

} // verus!
