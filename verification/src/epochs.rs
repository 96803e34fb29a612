//! Epochs of the membership and of the routing policy of the overlay.

use vstd::prelude::*;
use vstd::utf8::*;

use crate::digest::{be_bytes, epoch_of, overlay_epoch_digest, push_be_bytes, push_bytes};
use crate::error::ControlPlaneError;
use crate::ids::sorted_names;
use crate::routes::fields_view;
use crate::text::byte_len;
use crate::types::{
    views, AclAction, AclRule, AclRuleView, ClusterPolicy, ClusterPolicyView, TransportProtocol,
};

verus! {

/// What is digested for the first `n` of some identifiers: each one behind its length in bytes.
pub open spec fn membership_material(ids: Seq<Seq<char>>, n: nat) -> Seq<u8>
    decreases n,
{
    if n == 0 {
        Seq::empty()
    } else {
        membership_material(ids, (n - 1) as nat) + be_bytes(byte_len(ids[n - 1]) as u64)
            + encode_utf8(ids[n - 1])
    }
}

/// The epoch of a membership.
pub open spec fn membership_epoch(ids: Seq<Seq<char>>) -> u64 {
    epoch_of(
        encode_utf8("HeteroNetwork overlay membership v1"@),
        membership_material(ids, ids.len()),
    )
}

/// The epoch of a membership, given by the identifiers of its nodes in order.
pub fn overlay_membership_epoch(node_ids: &Vec<String>) -> (r: u64)
    ensures
        r == membership_epoch(views(node_ids@)),
{
    let ghost ids = views(node_ids@);
    let mut material: Vec<u8> = Vec::new();
    let mut i: usize = 0;
    while i < node_ids.len()
        invariant
            i <= node_ids@.len(),
            ids == views(node_ids@),
            material@ == membership_material(ids, i as nat),
        decreases node_ids@.len() - i,
    {
        assert(ids[i as int] == node_ids@[i as int]@);
        let bytes = node_ids[i].as_str().as_bytes();
        push_be_bytes(&mut material, bytes.len() as u64);
        push_bytes(&mut material, bytes);
        i = i + 1;
    }
    overlay_epoch_digest(
        "HeteroNetwork overlay membership v1".as_bytes(),
        material.as_slice(),
    )
}

proof fn lemma_material_front(ids: Seq<Seq<char>>, n: nat)
    requires
        0 < n <= ids.len(),
    ensures
        membership_material(ids, n) == be_bytes(byte_len(ids[0]) as u64) + encode_utf8(ids[0])
            + membership_material(ids.skip(1), (n - 1) as nat),
    decreases n,
{
    let head = be_bytes(byte_len(ids[0]) as u64) + encode_utf8(ids[0]);
    if n == 1 {
        assert(membership_material(ids, 0) =~= Seq::<u8>::empty());
        assert(membership_material(ids, 1) =~= head + membership_material(ids.skip(1), 0));
    } else {
        lemma_material_front(ids, (n - 1) as nat);
        assert(ids.skip(1)[n - 2] == ids[n - 1]);
        assert(membership_material(ids, n) =~= head + membership_material(
            ids.skip(1),
            (n - 1) as nat,
        ));
    }
}

proof fn lemma_frame_is_unambiguous(
    a: Seq<u8>,
    rest_a: Seq<u8>,
    b: Seq<u8>,
    rest_b: Seq<u8>,
)
    requires
        a.len() <= u64::MAX,
        b.len() <= u64::MAX,
        be_bytes(a.len() as u64) + a + rest_a == be_bytes(b.len() as u64) + b + rest_b,
    ensures
        a == b,
        rest_a == rest_b,
{
    let all = be_bytes(a.len() as u64) + a + rest_a;
    crate::digest::law_be_bytes_round_trip(a.len() as u64);
    crate::digest::law_be_bytes_round_trip(b.len() as u64);
    assert(all.take(8) =~= be_bytes(a.len() as u64));
    assert(all.take(8) =~= be_bytes(b.len() as u64));
    let n = 8 + a.len() as int;
    assert(all.subrange(8, n) =~= a);
    assert(all.subrange(8, n) =~= b);
    assert(all.skip(n) =~= rest_a);
    assert(all.skip(n) =~= rest_b);
}

proof fn lemma_material_is_empty(ids: Seq<Seq<char>>)
    requires
        membership_material(ids, ids.len()) == Seq::<u8>::empty(),
    ensures
        ids.len() == 0,
{
    if ids.len() > 0 {
        crate::digest::law_be_bytes_round_trip(byte_len(ids[ids.len() - 1]) as u64);
        assert(membership_material(ids, ids.len()).len() >= 8);
    }
}

proof fn lemma_same_first_member(a: Seq<Seq<char>>, b: Seq<Seq<char>>)
    requires
        a.len() > 0,
        b.len() > 0,
        byte_len(a[0]) <= u64::MAX,
        byte_len(b[0]) <= u64::MAX,
        membership_material(a, a.len()) == membership_material(b, b.len()),
    ensures
        a[0] == b[0],
        membership_material(a.skip(1), a.skip(1).len()) == membership_material(
            b.skip(1),
            b.skip(1).len(),
        ),
{
    lemma_material_front(a, a.len());
    lemma_material_front(b, b.len());
    lemma_frame_is_unambiguous(
        encode_utf8(a[0]),
        membership_material(a.skip(1), a.skip(1).len()),
        encode_utf8(b[0]),
        membership_material(b.skip(1), b.skip(1).len()),
    );
    encode_utf8_decode_utf8(a[0]);
    encode_utf8_decode_utf8(b[0]);
}

/// Two memberships are digested alike only if they are the same.
pub proof fn law_membership_material_is_injective(a: Seq<Seq<char>>, b: Seq<Seq<char>>)
    requires
        forall|i: int| 0 <= i < a.len() ==> byte_len(#[trigger] a[i]) <= u64::MAX,
        forall|i: int| 0 <= i < b.len() ==> byte_len(#[trigger] b[i]) <= u64::MAX,
        membership_material(a, a.len()) == membership_material(b, b.len()),
    ensures
        a == b,
    decreases a.len(),
{
    if a.len() == 0 {
        lemma_material_is_empty(b);
        assert(a =~= b);
    } else if b.len() == 0 {
        lemma_material_is_empty(a);
        assert(a =~= b);
    } else {
        let x = a.skip(1);
        let y = b.skip(1);
        lemma_same_first_member(a, b);
        assert forall|i: int| 0 <= i < x.len() implies byte_len(#[trigger] x[i]) <= u64::MAX by {
            assert(x[i] == a[i + 1]);
        }
        assert forall|i: int| 0 <= i < y.len() implies byte_len(#[trigger] y[i]) <= u64::MAX by {
            assert(y[i] == b[i + 1]);
        }
        law_membership_material_is_injective(x, y);
        assert(a =~= seq![a[0]] + x);
        assert(b =~= seq![b[0]] + y);
    }
}

/// A rule as it is encoded: its fields in their order, each with its name. The identifier is a
/// text; roles and tags of both sides and networks are lists; protocol and action are texts again.
pub type RuleEntry = (
    (String, String),
    Vec<(String, Vec<String>)>,
    Vec<(String, String)>,
);

/// What a [`RuleEntry`] holds.
pub type RuleEntryView = (
    (Seq<char>, Seq<char>),
    Seq<(Seq<char>, Seq<Seq<char>>)>,
    Seq<(Seq<char>, Seq<char>)>,
);

/// What the lists among the fields hold, each under its name.
pub open spec fn lists_view(lists: Seq<(String, Vec<String>)>) -> Seq<
    (Seq<char>, Seq<Seq<char>>),
> {
    Seq::new(lists.len(), |i: int| (lists[i].0@, views(lists[i].1@)))
}

/// What a [`RuleEntry`] holds.
pub open spec fn rule_entry_view(entry: RuleEntry) -> RuleEntryView {
    let ((id_name, id), lists, texts) = entry;
    ((id_name@, id@), lists_view(lists@), fields_view(texts@))
}

/// What a list of [`RuleEntry`] holds.
pub open spec fn rule_entries_view(entries: Seq<RuleEntry>) -> Seq<RuleEntryView> {
    Seq::new(entries.len(), |i: int| rule_entry_view(entries[i]))
}

/// The name of a protocol.
pub open spec fn protocol_name(protocol: TransportProtocol) -> Seq<char> {
    match protocol {
        TransportProtocol::Any => "Any"@,
        TransportProtocol::Tcp => "Tcp"@,
        TransportProtocol::Udp => "Udp"@,
    }
}

/// The name of an action.
pub open spec fn action_name(action: AclAction) -> Seq<char> {
    match action {
        AclAction::Allow => "Allow"@,
        AclAction::Deny => "Deny"@,
    }
}

/// The texts of networks.
pub open spec fn network_texts(networks: Seq<crate::net::Cidr>) -> Seq<Seq<char>> {
    Seq::new(networks.len(), |i: int| networks[i].display())
}

/// What is encoded of a rule.
pub open spec fn rule_material(rule: AclRuleView) -> RuleEntryView {
    (
        ("id"@, rule.id),
        seq![
            ("from_roles"@, sorted_names(rule.from_roles)),
            ("from_tags"@, sorted_names(rule.from_tags)),
            ("to_roles"@, sorted_names(rule.to_roles)),
            ("to_tags"@, sorted_names(rule.to_tags)),
            ("routes"@, network_texts(rule.routes)),
        ],
        seq![
            ("protocol"@, protocol_name(rule.protocol)),
            ("action"@, action_name(rule.action)),
        ],
    )
}

/// What is encoded of the rules of a policy.
pub open spec fn rules_material(rules: Seq<AclRuleView>) -> Seq<RuleEntryView> {
    Seq::new(rules.len(), |i: int| rule_material(rules[i]))
}

/// What serde_json writes for rules and networks, with the rules as objects.
pub uninterp spec fn policy_json(rules: Seq<RuleEntryView>, scopes: Seq<Seq<char>>) -> Seq<u8>;

/// Calls `serde_json::to_vec` on a pair, with each rule as a `serde_json::Map` of the named fields,
/// in their order, and the `Display` of its error. It fails only where a value refuses to be encoded
/// or a map has keys that are no texts; texts, lists, tuples and objects never do, so there is no
/// error. The bytes are a function of what the two lists hold; which bytes they are, the contract
/// does not say.
#[verifier::external_body]
fn policy_to_json(rules: &Vec<RuleEntry>, scopes: &Vec<String>) -> (r: Result<Vec<u8>, String>)
    ensures
        r is Ok,
        r->Ok_0@ == policy_json(rule_entries_view(rules@), views(scopes@)),
{
    let rules: Vec<serde_json::Map<_, _>> = rules.iter().cloned().map(
        |(id, lists, texts)| [(id.0, id.1.into())].into_iter()
            .chain(lists.into_iter().map(|(name, list)| (name, list.into())))
            .chain(texts.into_iter().map(|(name, text)| (name, text.into())))
            .collect(),
    ).collect();
    serde_json::to_vec(&(rules, scopes)).map_err(|error| error.to_string())
}

fn list_network_texts(networks: &Vec<crate::net::Cidr>) -> (r: Vec<String>)
    ensures
        views(r@) == network_texts(networks@),
{
    let mut r: Vec<String> = Vec::new();
    let mut i: usize = 0;
    while i < networks.len()
        invariant
            i <= networks@.len(),
            r@.len() == i,
            forall|k: int| 0 <= k < i ==> (#[trigger] r@[k])@ == networks@[k].display(),
        decreases networks@.len() - i,
    {
        r.push(networks[i].to_text());
        i = i + 1;
    }
    assert(views(r@) =~= network_texts(networks@));
    r
}

fn rule_entry(rule: &AclRule) -> (r: RuleEntry)
    ensures
        rule_entry_view(r) == rule_material(rule@),
{
    let protocol = match rule.protocol {
        TransportProtocol::Any => "Any",
        TransportProtocol::Tcp => "Tcp",
        TransportProtocol::Udp => "Udp",
    };
    let action = match rule.action {
        AclAction::Allow => "Allow",
        AclAction::Deny => "Deny",
    };
    let mut lists: Vec<(String, Vec<String>)> = Vec::new();
    lists.push(("from_roles".to_owned(), rule.from_roles.sorted()));
    lists.push(("from_tags".to_owned(), rule.from_tags.sorted()));
    lists.push(("to_roles".to_owned(), rule.to_roles.sorted()));
    lists.push(("to_tags".to_owned(), rule.to_tags.sorted()));
    lists.push(("routes".to_owned(), list_network_texts(&rule.routes)));
    let mut texts: Vec<(String, String)> = Vec::new();
    texts.push(("protocol".to_owned(), protocol.to_owned()));
    texts.push(("action".to_owned(), action.to_owned()));
    assert(lists_view(lists@) =~= rule_material(rule@).1);
    assert(fields_view(texts@) =~= rule_material(rule@).2);
    (("id".to_owned(), rule.id.clone()), lists, texts)
}

/// The epoch of the routing that a catalog and a policy make up.
pub open spec fn routing_epoch(catalog_epoch: u64, policy: ClusterPolicyView) -> u64 {
    epoch_of(
        encode_utf8("HeteroNetwork overlay routing epoch v1"@),
        be_bytes(catalog_epoch) + policy_json(
            rules_material(policy.acl_rules),
            network_texts(policy.overlay_route_scopes),
        ),
    )
}

/// The epoch of the routing that a catalog and a policy make up. Of the policy only the access
/// rules and the route scopes count. Each rule is written as a JSON object, as [`rule_material`] has
/// it: the number says something only where it is held against one that was made from the same
/// writing of rules, and not against one of a build that writes them otherwise.
pub fn overlay_routing_epoch(route_catalog_epoch: u64, policy: &ClusterPolicy) -> (r: Result<
    u64,
    ControlPlaneError,
>)
    ensures
        r matches Ok(epoch) && epoch == routing_epoch(route_catalog_epoch, policy@),
{
    let ghost rules = views(policy.acl_rules@);
    let mut entries: Vec<RuleEntry> = Vec::new();
    let mut i: usize = 0;
    while i < policy.acl_rules.len()
        invariant
            i <= policy.acl_rules@.len(),
            entries@.len() == i,
            forall|k: int|
                0 <= k < i ==> rule_entry_view(#[trigger] entries@[k]) == rule_material(
                    policy.acl_rules@[k]@,
                ),
        decreases policy.acl_rules@.len() - i,
    {
        entries.push(rule_entry(&policy.acl_rules[i]));
        i = i + 1;
    }
    assert(rule_entries_view(entries@) =~= rules_material(rules));
    let scopes = list_network_texts(&policy.overlay_route_scopes);
    match policy_to_json(&entries, &scopes) {
        Ok(bytes) => {
            let mut material: Vec<u8> = Vec::new();
            push_be_bytes(&mut material, route_catalog_epoch);
            push_bytes(&mut material, bytes.as_slice());
            assert(material@ =~= be_bytes(route_catalog_epoch) + bytes@);
            Ok(
                overlay_epoch_digest(
                    "HeteroNetwork overlay routing epoch v1".as_bytes(),
                    material.as_slice(),
                ),
            )
        },
        Err(reason) => Err(
            ControlPlaneError::Store {
                reason: "failed to encode overlay routing policy: ".to_owned().concat(
                    reason.as_str(),
                ),
            },
        ),
    }
}

/// Two policies that agree on the access rules and the route scopes give the same routing epoch.
pub proof fn law_routing_epoch_counts_rules_and_scopes_only(
    catalog_epoch: u64,
    policy: ClusterPolicyView,
    other: ClusterPolicyView,
)
    requires
        policy.acl_rules == other.acl_rules,
        policy.overlay_route_scopes == other.overlay_route_scopes,
    ensures
        routing_epoch(catalog_epoch, policy) == routing_epoch(catalog_epoch, other),
{
}

/// What counts of a rule for the routing epoch tells rules apart: two that count alike have the same
/// name, the same roles and tags on both sides, the same protocol and the same effect.
pub proof fn law_rule_material_tells_rules_apart(a: AclRuleView, b: AclRuleView)
    requires
        a.from_roles.finite() && b.from_roles.finite(),
        a.from_tags.finite() && b.from_tags.finite(),
        a.to_roles.finite() && b.to_roles.finite(),
        a.to_tags.finite() && b.to_tags.finite(),
        rule_material(a) == rule_material(b),
    ensures
        a.id == b.id,
        a.from_roles == b.from_roles,
        a.from_tags == b.from_tags,
        a.to_roles == b.to_roles,
        a.to_tags == b.to_tags,
        a.action == b.action,
        a.protocol == b.protocol,
        a.routes.len() == b.routes.len(),
        forall|i: int|
            0 <= i < a.routes.len() ==> (#[trigger] a.routes[i]).display() == b.routes[i].display(),
{
    reveal_strlit("Any");
    reveal_strlit("Tcp");
    reveal_strlit("Udp");
    reveal_strlit("Allow");
    reveal_strlit("Deny");
    let x = rule_material(a);
    let y = rule_material(b);
    assert(x.1[0] == y.1[0] && x.1[1] == y.1[1] && x.1[2] == y.1[2] && x.1[3] == y.1[3]
        && x.1[4] == y.1[4]);
    assert(x.2[0] == y.2[0] && x.2[1] == y.2[1]);
    lemma_names_told_apart(a.from_roles, b.from_roles);
    lemma_names_told_apart(a.from_tags, b.from_tags);
    lemma_names_told_apart(a.to_roles, b.to_roles);
    lemma_names_told_apart(a.to_tags, b.to_tags);
    assert("Any"@[0] == 'A' && "Tcp"@[0] == 'T' && "Udp"@[0] == 'U');
    assert("Allow"@[0] == 'A' && "Deny"@[0] == 'D');
    assert(protocol_name(a.protocol)[0] == protocol_name(b.protocol)[0]);
    assert(action_name(a.action)[0] == action_name(b.action)[0]);
    let s = network_texts(a.routes);
    let t = network_texts(b.routes);
    assert(s == t);
    assert(s.len() == a.routes.len() && t.len() == b.routes.len());
    assert forall|i: int| 0 <= i < a.routes.len() implies (#[trigger] a.routes[i]).display()
        == b.routes[i].display() by {
        assert(s[i] == t[i]);
    }
}

proof fn lemma_names_told_apart(a: Set<Seq<char>>, b: Set<Seq<char>>)
    requires
        a.finite(),
        b.finite(),
        sorted_names(a) == sorted_names(b),
    ensures
        a == b,
{
    crate::ids::lemma_sorted_names_members(a);
    crate::ids::lemma_sorted_names_members(b);
    assert forall|n: Seq<char>| a.contains(n) <==> b.contains(n) by {
        assert(sorted_names(a).contains(n) <==> a.contains(n));
    }
    assert(a =~= b);
}

} // verus!
