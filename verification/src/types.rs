//! The records of the control plane: nodes, policies, paths, services and requests.
//!
//! A record is plain data. Each has a view, and can be duplicated and compared through it. What
//! the address registry, the URL parser and the NAT prober found out about a value stands beside
//! the value, in fields of its own.

use vstd::prelude::*;

use crate::float::Float32;
use crate::ids::{ClusterId, KeyId, NameSet, NodeId, Role};
use crate::net::{Cidr, IpAddr, SocketAddr};
use crate::time::Timestamp;

verus! {

/// A value that can be duplicated and compared by what it holds.
pub trait Record: View + Sized {
    /// A second value that holds the same.
    fn duplicate(&self) -> (r: Self)
        ensures
            r@ == self@,
    ;

    /// Whether two values hold the same.
    fn alike(&self, other: &Self) -> (r: bool)
        ensures
            r == (self@ == other@),
    ;
}

/// What the values of a list hold.
pub open spec fn views<T: View>(list: Seq<T>) -> Seq<T::V> {
    Seq::new(list.len(), |i: int| list[i]@)
}

/// What an optional value holds.
pub open spec fn opt_view<T: View>(value: Option<T>) -> Option<T::V> {
    match value {
        Some(v) => Some(v@),
        None => None,
    }
}

/// What a borrowed optional value holds.
pub open spec fn ref_view<T: View>(value: Option<&T>) -> Option<T::V> {
    match value {
        Some(v) => Some(v@),
        None => None,
    }
}

/// What an optional list holds.
pub open spec fn opt_views<T: View>(value: Option<Vec<T>>) -> Option<Seq<T::V>> {
    match value {
        Some(v) => Some(views(v@)),
        None => None,
    }
}

/// A list with one more value holds one more.
pub broadcast proof fn lemma_views_push<T: View>(list: Seq<T>, value: T)
    ensures
        #[trigger] views(list.push(value)) == views(list).push(value@),
{
    assert(views(list.push(value)) =~= views(list).push(value@));
}

impl Record for String {
    fn duplicate(&self) -> (r: Self) {
        self.clone()
    }

    fn alike(&self, other: &Self) -> (r: bool) {
        *self == *other
    }
}

impl Record for NodeId {
    fn duplicate(&self) -> (r: Self) {
        self.clone()
    }

    fn alike(&self, other: &Self) -> (r: bool) {
        *self == *other
    }
}

/// A second optional value that holds the same.
pub fn duplicate_option<T: Record>(value: &Option<T>) -> (r: Option<T>)
    ensures
        opt_view(r) == opt_view(*value),
{
    match value {
        Some(v) => Some(v.duplicate()),
        None => None,
    }
}

/// Whether two optional values hold the same.
pub fn alike_option<T: Record>(a: &Option<T>, b: &Option<T>) -> (r: bool)
    ensures
        r == (opt_view(*a) == opt_view(*b)),
{
    match (a, b) {
        (Some(x), Some(y)) => x.alike(y),
        (None, None) => true,
        _ => false,
    }
}

/// A second list that holds the same.
pub fn duplicate_all<T: Record>(list: &Vec<T>) -> (r: Vec<T>)
    ensures
        views(r@) == views(list@),
{
    let mut r: Vec<T> = Vec::new();
    let mut i: usize = 0;
    while i < list.len()
        invariant
            i <= list@.len(),
            r@.len() == i,
            forall|k: int| 0 <= k < i ==> (#[trigger] r@[k])@ == list@[k]@,
        decreases list@.len() - i,
    {
        r.push(list[i].duplicate());
        i = i + 1;
    }
    assert(views(r@) =~= views(list@));
    r
}

/// Whether two lists hold the same.
pub fn alike_all<T: Record>(a: &Vec<T>, b: &Vec<T>) -> (r: bool)
    ensures
        r == (views(a@) == views(b@)),
{
    if a.len() != b.len() {
        assert(views(a@).len() != views(b@).len());
        return false;
    }
    let mut i: usize = 0;
    while i < a.len()
        invariant
            i <= a@.len(),
            a@.len() == b@.len(),
            forall|k: int| 0 <= k < i ==> (#[trigger] a@[k])@ == b@[k]@,
        decreases a@.len() - i,
    {
        if !a[i].alike(&b[i]) {
            assert(views(a@)[i as int] != views(b@)[i as int]);
            return false;
        }
        i = i + 1;
    }
    assert(views(a@) =~= views(b@));
    true
}

/// A second optional list that holds the same.
pub fn duplicate_option_all<T: Record>(value: &Option<Vec<T>>) -> (r: Option<Vec<T>>)
    ensures
        opt_views(r) == opt_views(*value),
{
    match value {
        Some(v) => Some(duplicate_all(v)),
        None => None,
    }
}

/// Whether two optional lists hold the same.
pub fn alike_option_all<T: Record>(a: &Option<Vec<T>>, b: &Option<Vec<T>>) -> (r: bool)
    ensures
        r == (opt_views(*a) == opt_views(*b)),
{
    match (a, b) {
        (Some(x), Some(y)) => alike_all(x, y),
        (None, None) => true,
        _ => false,
    }
}

/// A second list with the same networks.
pub fn duplicate_cidrs(list: &Vec<Cidr>) -> (r: Vec<Cidr>)
    ensures
        r@ == list@,
{
    let mut r: Vec<Cidr> = Vec::new();
    let mut i: usize = 0;
    while i < list.len()
        invariant
            i <= list@.len(),
            r@ == list@.take(i as int),
        decreases list@.len() - i,
    {
        r.push(list[i]);
        i = i + 1;
        assert(r@ =~= list@.take(i as int));
    }
    assert(list@.take(i as int) =~= list@);
    r
}

/// Whether two lists have the same networks.
pub fn alike_cidrs(a: &Vec<Cidr>, b: &Vec<Cidr>) -> (r: bool)
    ensures
        r == (a@ == b@),
{
    if a.len() != b.len() {
        return false;
    }
    let mut i: usize = 0;
    while i < a.len()
        invariant
            i <= a@.len(),
            a@.len() == b@.len(),
            forall|k: int| 0 <= k < i ==> a@[k] == b@[k],
        decreases a@.len() - i,
    {
        if a[i] != b[i] {
            return false;
        }
        i = i + 1;
    }
    assert(a@ =~= b@);
    true
}

/// An address with what the address registry says of it.
#[derive(Debug, Clone, Copy, PartialEq, Eq, Structural)]
pub struct Endpoint {
    pub addr: SocketAddr,
    /// Whether packets can be sent to the address at all.
    pub usable: bool,
    /// Whether the address is routed on the public Internet.
    pub globally_routable: bool,
}

/// How an endpoint candidate was come by.
#[derive(Debug, Clone, Copy, PartialEq, Eq, Structural)]
pub enum EndpointCandidateKind {
    Ipv6,
    PublicUdp,
    StunReflexive,
    LocalUdp,
    Relay,
}

impl EndpointCandidateKind {
    /// The name of the kind.
    pub open spec fn name(self) -> Seq<char> {
        match self {
            EndpointCandidateKind::Ipv6 => "Ipv6"@,
            EndpointCandidateKind::PublicUdp => "PublicUdp"@,
            EndpointCandidateKind::StunReflexive => "StunReflexive"@,
            EndpointCandidateKind::LocalUdp => "LocalUdp"@,
            EndpointCandidateKind::Relay => "Relay"@,
        }
    }

    /// The name of the kind.
    pub fn as_str(&self) -> (r: &'static str)
        ensures
            r@ == self.name(),
    {
        match self {
            EndpointCandidateKind::Ipv6 => "Ipv6",
            EndpointCandidateKind::PublicUdp => "PublicUdp",
            EndpointCandidateKind::StunReflexive => "StunReflexive",
            EndpointCandidateKind::LocalUdp => "LocalUdp",
            EndpointCandidateKind::Relay => "Relay",
        }
    }
}

/// What reported an endpoint candidate.
#[derive(Debug, Clone, Copy, PartialEq, Eq, Structural)]
pub enum CandidateSource {
    InterfaceScan,
    StunProbe,
}

/// The state of health that a node reports.
#[derive(Debug, Clone, Copy, PartialEq, Eq, Structural)]
pub enum HealthState {
    Healthy,
    Degraded,
    Unhealthy,
}

/// How traffic between two nodes travels. The order of the variants is that of the metrics.
#[derive(Debug, Clone, Copy, PartialEq, Eq, Structural)]
pub enum PathState {
    DirectPublic,
    DirectIpv6,
    DirectNatTraversal,
    Relay,
    Unreachable,
}

impl PathState {
    /// The place of the state in the order of the variants.
    pub open spec fn place(self) -> int {
        match self {
            PathState::DirectPublic => 0,
            PathState::DirectIpv6 => 1,
            PathState::DirectNatTraversal => 2,
            PathState::Relay => 3,
            PathState::Unreachable => 4,
        }
    }

    /// Traffic goes from node to node without a relay.
    pub open spec fn direct(self) -> bool {
        self.place() < 3
    }

    /// The name of the state.
    pub open spec fn name(self) -> Seq<char> {
        match self {
            PathState::DirectPublic => "DirectPublic"@,
            PathState::DirectIpv6 => "DirectIpv6"@,
            PathState::DirectNatTraversal => "DirectNatTraversal"@,
            PathState::Relay => "Relay"@,
            PathState::Unreachable => "Unreachable"@,
        }
    }

    /// Whether traffic goes from node to node without a relay.
    pub fn is_direct(&self) -> (r: bool)
        ensures
            r == self.direct(),
    {
        match self {
            PathState::DirectPublic | PathState::DirectIpv6 | PathState::DirectNatTraversal => true,
            _ => false,
        }
    }

    /// The place of the state in the order of the variants.
    pub fn rank(&self) -> (r: u8)
        ensures
            r == self.place(),
    {
        match self {
            PathState::DirectPublic => 0,
            PathState::DirectIpv6 => 1,
            PathState::DirectNatTraversal => 2,
            PathState::Relay => 3,
            PathState::Unreachable => 4,
        }
    }

    /// The name of the state.
    pub fn as_str(&self) -> (r: &'static str)
        ensures
            r@ == self.name(),
    {
        match self {
            PathState::DirectPublic => "DirectPublic",
            PathState::DirectIpv6 => "DirectIpv6",
            PathState::DirectNatTraversal => "DirectNatTraversal",
            PathState::Relay => "Relay",
            PathState::Unreachable => "Unreachable",
        }
    }
}

/// The kinds of service that a service instance can offer.
#[derive(Debug, Clone, Copy, PartialEq, Eq, Structural)]
pub enum BootstrapEndpointKind {
    ControlPlane,
    Signal,
    Stun,
    Relay,
    WebUi,
}

/// Whether a matching rule lets traffic through.
#[derive(Debug, Clone, Copy, PartialEq, Eq, Structural)]
pub enum AclAction {
    Allow,
    Deny,
}

/// The transport protocol that a rule speaks of.
#[derive(Debug, Clone, Copy, PartialEq, Eq, Structural)]
pub enum TransportProtocol {
    Any,
    Tcp,
    Udp,
}

impl TransportProtocol {
    /// The name of the protocol.
    pub open spec fn name(self) -> Seq<char> {
        match self {
            TransportProtocol::Any => "Any"@,
            TransportProtocol::Tcp => "Tcp"@,
            TransportProtocol::Udp => "Udp"@,
        }
    }

    /// The name of the protocol.
    pub fn as_str(&self) -> (r: &'static str)
        ensures
            r@ == self.name(),
    {
        match self {
            TransportProtocol::Any => "Any",
            TransportProtocol::Tcp => "Tcp",
            TransportProtocol::Udp => "Udp",
        }
    }
}

/// An address at which a node says that it can be reached.
#[derive(Debug, PartialEq)]
pub struct EndpointCandidate {
    /// The node that the candidate belongs to.
    pub node_id: NodeId,
    pub kind: EndpointCandidateKind,
    pub endpoint: Endpoint,
    /// Why the address does not suit the kind, where it does not.
    pub kind_fault: Option<String>,
    pub observed_at: Timestamp,
    pub priority: u16,
    pub cost: u32,
    pub source: CandidateSource,
}

/// What a [`EndpointCandidate`] holds.
#[verifier::ext_equal]
pub struct EndpointCandidateView {
    pub node_id: Seq<char>,
    pub kind: EndpointCandidateKind,
    pub endpoint: Endpoint,
    pub kind_fault: Option<Seq<char>>,
    pub observed_at: Timestamp,
    pub priority: u16,
    pub cost: u32,
    pub source: CandidateSource,
}

impl View for EndpointCandidate {
    type V = EndpointCandidateView;

    open spec fn view(&self) -> EndpointCandidateView {
        EndpointCandidateView {
            node_id: self.node_id@,
            kind: self.kind,
            endpoint: self.endpoint,
            kind_fault: opt_view(self.kind_fault),
            observed_at: self.observed_at,
            priority: self.priority,
            cost: self.cost,
            source: self.source,
        }
    }
}

impl Record for EndpointCandidate {
    fn duplicate(&self) -> (r: Self) {
        EndpointCandidate {
            node_id: self.node_id.clone(),
            kind: self.kind,
            endpoint: self.endpoint,
            kind_fault: duplicate_option(&self.kind_fault),
            observed_at: self.observed_at,
            priority: self.priority,
            cost: self.cost,
            source: self.source,
        }
    }

    fn alike(&self, other: &Self) -> (r: bool) {
        self.node_id == other.node_id
            && self.kind == other.kind
            && self.endpoint == other.endpoint
            && alike_option(&self.kind_fault, &other.kind_fault)
            && self.observed_at == other.observed_at
            && self.priority == other.priority
            && self.cost == other.cost
            && self.source == other.source
    }
}

impl Clone for EndpointCandidate {
    fn clone(&self) -> (r: Self)
        ensures
            r@ == self@,
    {
        self.duplicate()
    }
}

/// What a node that relays for others reports of itself.
#[derive(Debug, PartialEq)]
pub struct RelayCapability {
    /// Whether the token policy lets the node relay.
    pub enabled_by_policy: bool,
    pub public_endpoint: Option<Endpoint>,
    pub admission_url: Option<String>,
    /// Whether the admission URL is an absolute HTTP(S) one with a usable endpoint.
    pub admission_url_usable: bool,
    pub max_sessions: u32,
    pub active_sessions: u32,
    pub max_mbps: u32,
    pub e2e_only: bool,
    /// Whether the relay can take sessions once policy enables it.
    pub ready_to_relay: bool,
}

/// What a [`RelayCapability`] holds.
#[verifier::ext_equal]
pub struct RelayCapabilityView {
    pub enabled_by_policy: bool,
    pub public_endpoint: Option<Endpoint>,
    pub admission_url: Option<Seq<char>>,
    pub admission_url_usable: bool,
    pub max_sessions: u32,
    pub active_sessions: u32,
    pub max_mbps: u32,
    pub e2e_only: bool,
    pub ready_to_relay: bool,
}

impl View for RelayCapability {
    type V = RelayCapabilityView;

    open spec fn view(&self) -> RelayCapabilityView {
        RelayCapabilityView {
            enabled_by_policy: self.enabled_by_policy,
            public_endpoint: self.public_endpoint,
            admission_url: opt_view(self.admission_url),
            admission_url_usable: self.admission_url_usable,
            max_sessions: self.max_sessions,
            active_sessions: self.active_sessions,
            max_mbps: self.max_mbps,
            e2e_only: self.e2e_only,
            ready_to_relay: self.ready_to_relay,
        }
    }
}

impl Record for RelayCapability {
    fn duplicate(&self) -> (r: Self) {
        RelayCapability {
            enabled_by_policy: self.enabled_by_policy,
            public_endpoint: self.public_endpoint,
            admission_url: duplicate_option(&self.admission_url),
            admission_url_usable: self.admission_url_usable,
            max_sessions: self.max_sessions,
            active_sessions: self.active_sessions,
            max_mbps: self.max_mbps,
            e2e_only: self.e2e_only,
            ready_to_relay: self.ready_to_relay,
        }
    }

    fn alike(&self, other: &Self) -> (r: bool) {
        self.enabled_by_policy == other.enabled_by_policy
            && self.public_endpoint == other.public_endpoint
            && alike_option(&self.admission_url, &other.admission_url)
            && self.admission_url_usable == other.admission_url_usable
            && self.max_sessions == other.max_sessions
            && self.active_sessions == other.active_sessions
            && self.max_mbps == other.max_mbps
            && self.e2e_only == other.e2e_only
            && self.ready_to_relay == other.ready_to_relay
    }
}

impl Clone for RelayCapability {
    fn clone(&self) -> (r: Self)
        ensures
            r@ == self@,
    {
        self.duplicate()
    }
}

/// A network that a node forwards traffic to.
#[derive(Debug, PartialEq)]
pub struct Route {
    pub id: String,
    pub cidr: Cidr,
    pub advertised_by: NodeId,
    pub via: Option<NodeId>,
    pub metric: u32,
    pub tags: NameSet,
}

/// What a [`Route`] holds.
#[verifier::ext_equal]
pub struct RouteView {
    pub id: Seq<char>,
    pub cidr: Cidr,
    pub advertised_by: Seq<char>,
    pub via: Option<Seq<char>>,
    pub metric: u32,
    pub tags: Set<Seq<char>>,
}

impl View for Route {
    type V = RouteView;

    open spec fn view(&self) -> RouteView {
        RouteView {
            id: self.id@,
            cidr: self.cidr,
            advertised_by: self.advertised_by@,
            via: opt_view(self.via),
            metric: self.metric,
            tags: self.tags@,
        }
    }
}

impl Record for Route {
    fn duplicate(&self) -> (r: Self) {
        Route {
            id: self.id.clone(),
            cidr: self.cidr,
            advertised_by: self.advertised_by.clone(),
            via: duplicate_option(&self.via),
            metric: self.metric,
            tags: self.tags.clone(),
        }
    }

    fn alike(&self, other: &Self) -> (r: bool) {
        self.id == other.id
            && self.cidr == other.cidr
            && self.advertised_by == other.advertised_by
            && alike_option(&self.via, &other.via)
            && self.metric == other.metric
            && self.tags.same_names(&other.tags)
    }
}

impl Clone for Route {
    fn clone(&self) -> (r: Self)
        ensures
            r@ == self@,
    {
        self.duplicate()
    }
}

/// What a join token lets its holder do.
#[derive(Debug, PartialEq)]
pub struct TokenPolicy {
    pub allow_join: bool,
    pub allow_relay: bool,
    pub allowed_routes: Vec<Cidr>,
    pub allowed_tags: NameSet,
    pub max_token_uses: Option<u32>,
}

/// What a [`TokenPolicy`] holds.
#[verifier::ext_equal]
pub struct TokenPolicyView {
    pub allow_join: bool,
    pub allow_relay: bool,
    pub allowed_routes: Seq<Cidr>,
    pub allowed_tags: Set<Seq<char>>,
    pub max_token_uses: Option<u32>,
}

impl View for TokenPolicy {
    type V = TokenPolicyView;

    open spec fn view(&self) -> TokenPolicyView {
        TokenPolicyView {
            allow_join: self.allow_join,
            allow_relay: self.allow_relay,
            allowed_routes: self.allowed_routes@,
            allowed_tags: self.allowed_tags@,
            max_token_uses: self.max_token_uses,
        }
    }
}

impl Record for TokenPolicy {
    fn duplicate(&self) -> (r: Self) {
        TokenPolicy {
            allow_join: self.allow_join,
            allow_relay: self.allow_relay,
            allowed_routes: duplicate_cidrs(&self.allowed_routes),
            allowed_tags: self.allowed_tags.clone(),
            max_token_uses: self.max_token_uses,
        }
    }

    fn alike(&self, other: &Self) -> (r: bool) {
        self.allow_join == other.allow_join
            && self.allow_relay == other.allow_relay
            && alike_cidrs(&self.allowed_routes, &other.allowed_routes)
            && self.allowed_tags.same_names(&other.allowed_tags)
            && self.max_token_uses == other.max_token_uses
    }
}

impl Clone for TokenPolicy {
    fn clone(&self) -> (r: Self)
        ensures
            r@ == self@,
    {
        self.duplicate()
    }
}

/// A registered node or client.
#[derive(Debug, PartialEq)]
pub struct NodeRecord {
    pub node_id: NodeId,
    pub hostname: Option<String>,
    pub cluster_id: ClusterId,
    pub vpn_ip: IpAddr,
    pub identity_public_key: String,
    pub wireguard_public_key: String,
    pub role: Role,
    pub tags: NameSet,
    pub endpoint_candidates: Vec<EndpointCandidate>,
    pub relay_capability: Option<RelayCapability>,
    pub token_policy: TokenPolicy,
    pub routes: Vec<Route>,
    pub registered_at: Timestamp,
}

/// What a [`NodeRecord`] holds.
#[verifier::ext_equal]
pub struct NodeRecordView {
    pub node_id: Seq<char>,
    pub hostname: Option<Seq<char>>,
    pub cluster_id: Seq<char>,
    pub vpn_ip: IpAddr,
    pub identity_public_key: Seq<char>,
    pub wireguard_public_key: Seq<char>,
    pub role: Seq<char>,
    pub tags: Set<Seq<char>>,
    pub endpoint_candidates: Seq<EndpointCandidateView>,
    pub relay_capability: Option<RelayCapabilityView>,
    pub token_policy: TokenPolicyView,
    pub routes: Seq<RouteView>,
    pub registered_at: Timestamp,
}

impl View for NodeRecord {
    type V = NodeRecordView;

    open spec fn view(&self) -> NodeRecordView {
        NodeRecordView {
            node_id: self.node_id@,
            hostname: opt_view(self.hostname),
            cluster_id: self.cluster_id@,
            vpn_ip: self.vpn_ip,
            identity_public_key: self.identity_public_key@,
            wireguard_public_key: self.wireguard_public_key@,
            role: self.role@,
            tags: self.tags@,
            endpoint_candidates: views(self.endpoint_candidates@),
            relay_capability: opt_view(self.relay_capability),
            token_policy: self.token_policy@,
            routes: views(self.routes@),
            registered_at: self.registered_at,
        }
    }
}

impl Record for NodeRecord {
    fn duplicate(&self) -> (r: Self) {
        NodeRecord {
            node_id: self.node_id.clone(),
            hostname: duplicate_option(&self.hostname),
            cluster_id: self.cluster_id.clone(),
            vpn_ip: self.vpn_ip,
            identity_public_key: self.identity_public_key.clone(),
            wireguard_public_key: self.wireguard_public_key.clone(),
            role: self.role.clone(),
            tags: self.tags.clone(),
            endpoint_candidates: duplicate_all(&self.endpoint_candidates),
            relay_capability: duplicate_option(&self.relay_capability),
            token_policy: self.token_policy.duplicate(),
            routes: duplicate_all(&self.routes),
            registered_at: self.registered_at,
        }
    }

    fn alike(&self, other: &Self) -> (r: bool) {
        self.node_id == other.node_id
            && alike_option(&self.hostname, &other.hostname)
            && self.cluster_id == other.cluster_id
            && self.vpn_ip == other.vpn_ip
            && self.identity_public_key == other.identity_public_key
            && self.wireguard_public_key == other.wireguard_public_key
            && self.role == other.role
            && self.tags.same_names(&other.tags)
            && alike_all(&self.endpoint_candidates, &other.endpoint_candidates)
            && alike_option(&self.relay_capability, &other.relay_capability)
            && self.token_policy.alike(&other.token_policy)
            && alike_all(&self.routes, &other.routes)
            && self.registered_at == other.registered_at
    }
}

impl Clone for NodeRecord {
    fn clone(&self) -> (r: Self)
        ensures
            r@ == self@,
    {
        self.duplicate()
    }
}

/// What a node reports of its health.
#[derive(Debug, PartialEq)]
pub struct NodeHealth {
    pub state: HealthState,
    pub last_seen_at: Timestamp,
    pub latency_ms: Option<Float32>,
    pub relay_load: Option<Float32>,
    pub message: Option<String>,
}

/// What a [`NodeHealth`] holds.
#[verifier::ext_equal]
pub struct NodeHealthView {
    pub state: HealthState,
    pub last_seen_at: Timestamp,
    pub latency_ms: Option<Float32>,
    pub relay_load: Option<Float32>,
    pub message: Option<Seq<char>>,
}

impl View for NodeHealth {
    type V = NodeHealthView;

    open spec fn view(&self) -> NodeHealthView {
        NodeHealthView {
            state: self.state,
            last_seen_at: self.last_seen_at,
            latency_ms: self.latency_ms,
            relay_load: self.relay_load,
            message: opt_view(self.message),
        }
    }
}

impl Record for NodeHealth {
    fn duplicate(&self) -> (r: Self) {
        NodeHealth {
            state: self.state,
            last_seen_at: self.last_seen_at,
            latency_ms: self.latency_ms,
            relay_load: self.relay_load,
            message: duplicate_option(&self.message),
        }
    }

    fn alike(&self, other: &Self) -> (r: bool) {
        self.state == other.state
            && self.last_seen_at == other.last_seen_at
            && self.latency_ms == other.latency_ms
            && self.relay_load == other.relay_load
            && alike_option(&self.message, &other.message)
    }
}

impl Clone for NodeHealth {
    fn clone(&self) -> (r: Self)
        ensures
            r@ == self@,
    {
        self.duplicate()
    }
}

/// What a probe of the address mapping of a NAT saw.
#[derive(Debug, PartialEq)]
pub struct NatProbeObservation {
    pub local_addr: SocketAddr,
    pub stun_server: Endpoint,
    pub reflexive_addr: Endpoint,
    pub observed_at: Timestamp,
}

/// What a [`NatProbeObservation`] holds.
#[verifier::ext_equal]
pub struct NatProbeObservationView {
    pub local_addr: SocketAddr,
    pub stun_server: Endpoint,
    pub reflexive_addr: Endpoint,
    pub observed_at: Timestamp,
}

impl View for NatProbeObservation {
    type V = NatProbeObservationView;

    open spec fn view(&self) -> NatProbeObservationView {
        NatProbeObservationView {
            local_addr: self.local_addr,
            stun_server: self.stun_server,
            reflexive_addr: self.reflexive_addr,
            observed_at: self.observed_at,
        }
    }
}

impl Record for NatProbeObservation {
    fn duplicate(&self) -> (r: Self) {
        NatProbeObservation {
            local_addr: self.local_addr,
            stun_server: self.stun_server,
            reflexive_addr: self.reflexive_addr,
            observed_at: self.observed_at,
        }
    }

    fn alike(&self, other: &Self) -> (r: bool) {
        self.local_addr == other.local_addr
            && self.stun_server == other.stun_server
            && self.reflexive_addr == other.reflexive_addr
            && self.observed_at == other.observed_at
    }
}

impl Clone for NatProbeObservation {
    fn clone(&self) -> (r: Self)
        ensures
            r@ == self@,
    {
        self.duplicate()
    }
}

/// What a probe of the filtering of a NAT saw.
#[derive(Debug, PartialEq)]
pub struct NatFilteringObservation {
    pub stun_server: Endpoint,
    pub response_origin: Option<Endpoint>,
    pub other_address: Option<Endpoint>,
    pub observed_at: Timestamp,
}

/// What a [`NatFilteringObservation`] holds.
#[verifier::ext_equal]
pub struct NatFilteringObservationView {
    pub stun_server: Endpoint,
    pub response_origin: Option<Endpoint>,
    pub other_address: Option<Endpoint>,
    pub observed_at: Timestamp,
}

impl View for NatFilteringObservation {
    type V = NatFilteringObservationView;

    open spec fn view(&self) -> NatFilteringObservationView {
        NatFilteringObservationView {
            stun_server: self.stun_server,
            response_origin: self.response_origin,
            other_address: self.other_address,
            observed_at: self.observed_at,
        }
    }
}

impl Record for NatFilteringObservation {
    fn duplicate(&self) -> (r: Self) {
        NatFilteringObservation {
            stun_server: self.stun_server,
            response_origin: self.response_origin,
            other_address: self.other_address,
            observed_at: self.observed_at,
        }
    }

    fn alike(&self, other: &Self) -> (r: bool) {
        self.stun_server == other.stun_server
            && self.response_origin == other.response_origin
            && self.other_address == other.other_address
            && self.observed_at == other.observed_at
    }
}

impl Clone for NatFilteringObservation {
    fn clone(&self) -> (r: Self)
        ensures
            r@ == self@,
    {
        self.duplicate()
    }
}

/// What a node found out about the NAT in front of it.
#[derive(Debug, PartialEq)]
pub struct NatClassification {
    /// Whether the observations bear out the connectivity state.
    pub public_state_supported: bool,
    /// The public address that the node can be reached at, where it can.
    pub publicly_reachable_ip: Option<IpAddr>,
    /// Whether that address is routed on the public Internet.
    pub reachable_ip_is_global: bool,
    /// The place of the traversal strategy in the list of strategies.
    pub strategy: u8,
    pub observed_endpoint: Option<Endpoint>,
    pub assessed_at: Timestamp,
    pub confidence: Float32,
    /// The highest whole percentage that a hundredfold of the confidence reaches.
    pub confidence_percent: Option<u8>,
    pub observations: Vec<NatProbeObservation>,
    pub filtering_observations: Vec<NatFilteringObservation>,
}

/// What a [`NatClassification`] holds.
#[verifier::ext_equal]
pub struct NatClassificationView {
    pub public_state_supported: bool,
    pub publicly_reachable_ip: Option<IpAddr>,
    pub reachable_ip_is_global: bool,
    pub strategy: u8,
    pub observed_endpoint: Option<Endpoint>,
    pub assessed_at: Timestamp,
    pub confidence: Float32,
    pub confidence_percent: Option<u8>,
    pub observations: Seq<NatProbeObservationView>,
    pub filtering_observations: Seq<NatFilteringObservationView>,
}

impl View for NatClassification {
    type V = NatClassificationView;

    open spec fn view(&self) -> NatClassificationView {
        NatClassificationView {
            public_state_supported: self.public_state_supported,
            publicly_reachable_ip: self.publicly_reachable_ip,
            reachable_ip_is_global: self.reachable_ip_is_global,
            strategy: self.strategy,
            observed_endpoint: self.observed_endpoint,
            assessed_at: self.assessed_at,
            confidence: self.confidence,
            confidence_percent: self.confidence_percent,
            observations: views(self.observations@),
            filtering_observations: views(self.filtering_observations@),
        }
    }
}

impl Record for NatClassification {
    fn duplicate(&self) -> (r: Self) {
        NatClassification {
            public_state_supported: self.public_state_supported,
            publicly_reachable_ip: self.publicly_reachable_ip,
            reachable_ip_is_global: self.reachable_ip_is_global,
            strategy: self.strategy,
            observed_endpoint: self.observed_endpoint,
            assessed_at: self.assessed_at,
            confidence: self.confidence,
            confidence_percent: self.confidence_percent,
            observations: duplicate_all(&self.observations),
            filtering_observations: duplicate_all(&self.filtering_observations),
        }
    }

    fn alike(&self, other: &Self) -> (r: bool) {
        self.public_state_supported == other.public_state_supported
            && self.publicly_reachable_ip == other.publicly_reachable_ip
            && self.reachable_ip_is_global == other.reachable_ip_is_global
            && self.strategy == other.strategy
            && self.observed_endpoint == other.observed_endpoint
            && self.assessed_at == other.assessed_at
            && self.confidence == other.confidence
            && self.confidence_percent == other.confidence_percent
            && alike_all(&self.observations, &other.observations)
            && alike_all(&self.filtering_observations, &other.filtering_observations)
    }
}

impl Clone for NatClassification {
    fn clone(&self) -> (r: Self)
        ensures
            r@ == self@,
    {
        self.duplicate()
    }
}

/// The two ends of a path, seen from the first.
#[derive(Debug, PartialEq)]
pub struct PeerPathKey {
    pub local: NodeId,
    pub remote: NodeId,
}

/// What a [`PeerPathKey`] holds.
#[verifier::ext_equal]
pub struct PeerPathKeyView {
    pub local: Seq<char>,
    pub remote: Seq<char>,
}

impl View for PeerPathKey {
    type V = PeerPathKeyView;

    open spec fn view(&self) -> PeerPathKeyView {
        PeerPathKeyView {
            local: self.local@,
            remote: self.remote@,
        }
    }
}

impl Record for PeerPathKey {
    fn duplicate(&self) -> (r: Self) {
        PeerPathKey {
            local: self.local.clone(),
            remote: self.remote.clone(),
        }
    }

    fn alike(&self, other: &Self) -> (r: bool) {
        self.local == other.local
            && self.remote == other.remote
    }
}

impl Clone for PeerPathKey {
    fn clone(&self) -> (r: Self)
        ensures
            r@ == self@,
    {
        self.duplicate()
    }
}

/// How good a path is, and why.
#[derive(Debug, PartialEq)]
pub struct PathScore {
    pub value: Float32,
    pub reasons: Vec<String>,
}

/// What a [`PathScore`] holds.
#[verifier::ext_equal]
pub struct PathScoreView {
    pub value: Float32,
    pub reasons: Seq<Seq<char>>,
}

impl View for PathScore {
    type V = PathScoreView;

    open spec fn view(&self) -> PathScoreView {
        PathScoreView {
            value: self.value,
            reasons: views(self.reasons@),
        }
    }
}

impl Record for PathScore {
    fn duplicate(&self) -> (r: Self) {
        PathScore {
            value: self.value,
            reasons: duplicate_all(&self.reasons),
        }
    }

    fn alike(&self, other: &Self) -> (r: bool) {
        self.value == other.value
            && alike_all(&self.reasons, &other.reasons)
    }
}

impl Clone for PathScore {
    fn clone(&self) -> (r: Self)
        ensures
            r@ == self@,
    {
        self.duplicate()
    }
}

/// What a node reports of its path to another node.
#[derive(Debug, PartialEq)]
pub struct PathRecord {
    pub key: PeerPathKey,
    pub selected_state: PathState,
    pub selected_candidate: Option<EndpointCandidate>,
    /// Whether the selected state admits candidates of the selected kind.
    pub selected_kind_allowed: bool,
    pub relay_node: Option<NodeId>,
    pub score: PathScore,
    pub updated_at: Timestamp,
    pub pinned: bool,
}

/// What a [`PathRecord`] holds.
#[verifier::ext_equal]
pub struct PathRecordView {
    pub key: PeerPathKeyView,
    pub selected_state: PathState,
    pub selected_candidate: Option<EndpointCandidateView>,
    pub selected_kind_allowed: bool,
    pub relay_node: Option<Seq<char>>,
    pub score: PathScoreView,
    pub updated_at: Timestamp,
    pub pinned: bool,
}

impl View for PathRecord {
    type V = PathRecordView;

    open spec fn view(&self) -> PathRecordView {
        PathRecordView {
            key: self.key@,
            selected_state: self.selected_state,
            selected_candidate: opt_view(self.selected_candidate),
            selected_kind_allowed: self.selected_kind_allowed,
            relay_node: opt_view(self.relay_node),
            score: self.score@,
            updated_at: self.updated_at,
            pinned: self.pinned,
        }
    }
}

impl Record for PathRecord {
    fn duplicate(&self) -> (r: Self) {
        PathRecord {
            key: self.key.duplicate(),
            selected_state: self.selected_state,
            selected_candidate: duplicate_option(&self.selected_candidate),
            selected_kind_allowed: self.selected_kind_allowed,
            relay_node: duplicate_option(&self.relay_node),
            score: self.score.duplicate(),
            updated_at: self.updated_at,
            pinned: self.pinned,
        }
    }

    fn alike(&self, other: &Self) -> (r: bool) {
        self.key.alike(&other.key)
            && self.selected_state == other.selected_state
            && alike_option(&self.selected_candidate, &other.selected_candidate)
            && self.selected_kind_allowed == other.selected_kind_allowed
            && alike_option(&self.relay_node, &other.relay_node)
            && self.score.alike(&other.score)
            && self.updated_at == other.updated_at
            && self.pinned == other.pinned
    }
}

impl Clone for PathRecord {
    fn clone(&self) -> (r: Self)
        ensures
            r@ == self@,
    {
        self.duplicate()
    }
}

/// A rule on which nodes see each other, and which routes.
#[derive(Debug, PartialEq)]
pub struct AclRule {
    pub id: String,
    pub from_roles: NameSet,
    pub from_tags: NameSet,
    pub to_roles: NameSet,
    pub to_tags: NameSet,
    pub routes: Vec<Cidr>,
    pub protocol: TransportProtocol,
    pub action: AclAction,
}

/// What a [`AclRule`] holds.
#[verifier::ext_equal]
pub struct AclRuleView {
    pub id: Seq<char>,
    pub from_roles: Set<Seq<char>>,
    pub from_tags: Set<Seq<char>>,
    pub to_roles: Set<Seq<char>>,
    pub to_tags: Set<Seq<char>>,
    pub routes: Seq<Cidr>,
    pub protocol: TransportProtocol,
    pub action: AclAction,
}

impl View for AclRule {
    type V = AclRuleView;

    open spec fn view(&self) -> AclRuleView {
        AclRuleView {
            id: self.id@,
            from_roles: self.from_roles@,
            from_tags: self.from_tags@,
            to_roles: self.to_roles@,
            to_tags: self.to_tags@,
            routes: self.routes@,
            protocol: self.protocol,
            action: self.action,
        }
    }
}

impl Record for AclRule {
    fn duplicate(&self) -> (r: Self) {
        AclRule {
            id: self.id.clone(),
            from_roles: self.from_roles.clone(),
            from_tags: self.from_tags.clone(),
            to_roles: self.to_roles.clone(),
            to_tags: self.to_tags.clone(),
            routes: duplicate_cidrs(&self.routes),
            protocol: self.protocol,
            action: self.action,
        }
    }

    fn alike(&self, other: &Self) -> (r: bool) {
        self.id == other.id
            && self.from_roles.same_names(&other.from_roles)
            && self.from_tags.same_names(&other.from_tags)
            && self.to_roles.same_names(&other.to_roles)
            && self.to_tags.same_names(&other.to_tags)
            && alike_cidrs(&self.routes, &other.routes)
            && self.protocol == other.protocol
            && self.action == other.action
    }
}

impl Clone for AclRule {
    fn clone(&self) -> (r: Self)
        ensures
            r@ == self@,
    {
        self.duplicate()
    }
}

/// The policy of a cluster.
#[derive(Debug, PartialEq)]
pub struct ClusterPolicy {
    pub acl_rules: Vec<AclRule>,
    pub overlay_route_scopes: Vec<Cidr>,
    pub overlay_block_size: u16,
    pub overlay_max_degree: u16,
    pub overlay_direct_shortcut_limit: u16,
    pub overlay_on_demand_peer_limit: u16,
    pub idle_timeout_seconds: u64,
    pub relay_health_ttl_seconds: u64,
    pub endpoint_candidate_ttl_seconds: u64,
    pub path_state_ttl_seconds: u64,
    pub path_quality_observation_ttl_seconds: u64,
    pub nat_classification_ttl_seconds: u64,
    pub nat_classification_min_confidence_percent: u8,
    pub allow_ipv6_direct: bool,
}

/// What a [`ClusterPolicy`] holds.
#[verifier::ext_equal]
pub struct ClusterPolicyView {
    pub acl_rules: Seq<AclRuleView>,
    pub overlay_route_scopes: Seq<Cidr>,
    pub overlay_block_size: u16,
    pub overlay_max_degree: u16,
    pub overlay_direct_shortcut_limit: u16,
    pub overlay_on_demand_peer_limit: u16,
    pub idle_timeout_seconds: u64,
    pub relay_health_ttl_seconds: u64,
    pub endpoint_candidate_ttl_seconds: u64,
    pub path_state_ttl_seconds: u64,
    pub path_quality_observation_ttl_seconds: u64,
    pub nat_classification_ttl_seconds: u64,
    pub nat_classification_min_confidence_percent: u8,
    pub allow_ipv6_direct: bool,
}

impl View for ClusterPolicy {
    type V = ClusterPolicyView;

    open spec fn view(&self) -> ClusterPolicyView {
        ClusterPolicyView {
            acl_rules: views(self.acl_rules@),
            overlay_route_scopes: self.overlay_route_scopes@,
            overlay_block_size: self.overlay_block_size,
            overlay_max_degree: self.overlay_max_degree,
            overlay_direct_shortcut_limit: self.overlay_direct_shortcut_limit,
            overlay_on_demand_peer_limit: self.overlay_on_demand_peer_limit,
            idle_timeout_seconds: self.idle_timeout_seconds,
            relay_health_ttl_seconds: self.relay_health_ttl_seconds,
            endpoint_candidate_ttl_seconds: self.endpoint_candidate_ttl_seconds,
            path_state_ttl_seconds: self.path_state_ttl_seconds,
            path_quality_observation_ttl_seconds: self.path_quality_observation_ttl_seconds,
            nat_classification_ttl_seconds: self.nat_classification_ttl_seconds,
            nat_classification_min_confidence_percent: self.nat_classification_min_confidence_percent,
            allow_ipv6_direct: self.allow_ipv6_direct,
        }
    }
}

impl Record for ClusterPolicy {
    fn duplicate(&self) -> (r: Self) {
        ClusterPolicy {
            acl_rules: duplicate_all(&self.acl_rules),
            overlay_route_scopes: duplicate_cidrs(&self.overlay_route_scopes),
            overlay_block_size: self.overlay_block_size,
            overlay_max_degree: self.overlay_max_degree,
            overlay_direct_shortcut_limit: self.overlay_direct_shortcut_limit,
            overlay_on_demand_peer_limit: self.overlay_on_demand_peer_limit,
            idle_timeout_seconds: self.idle_timeout_seconds,
            relay_health_ttl_seconds: self.relay_health_ttl_seconds,
            endpoint_candidate_ttl_seconds: self.endpoint_candidate_ttl_seconds,
            path_state_ttl_seconds: self.path_state_ttl_seconds,
            path_quality_observation_ttl_seconds: self.path_quality_observation_ttl_seconds,
            nat_classification_ttl_seconds: self.nat_classification_ttl_seconds,
            nat_classification_min_confidence_percent: self.nat_classification_min_confidence_percent,
            allow_ipv6_direct: self.allow_ipv6_direct,
        }
    }

    fn alike(&self, other: &Self) -> (r: bool) {
        alike_all(&self.acl_rules, &other.acl_rules)
            && alike_cidrs(&self.overlay_route_scopes, &other.overlay_route_scopes)
            && self.overlay_block_size == other.overlay_block_size
            && self.overlay_max_degree == other.overlay_max_degree
            && self.overlay_direct_shortcut_limit == other.overlay_direct_shortcut_limit
            && self.overlay_on_demand_peer_limit == other.overlay_on_demand_peer_limit
            && self.idle_timeout_seconds == other.idle_timeout_seconds
            && self.relay_health_ttl_seconds == other.relay_health_ttl_seconds
            && self.endpoint_candidate_ttl_seconds == other.endpoint_candidate_ttl_seconds
            && self.path_state_ttl_seconds == other.path_state_ttl_seconds
            && self.path_quality_observation_ttl_seconds == other.path_quality_observation_ttl_seconds
            && self.nat_classification_ttl_seconds == other.nat_classification_ttl_seconds
            && self.nat_classification_min_confidence_percent == other.nat_classification_min_confidence_percent
            && self.allow_ipv6_direct == other.allow_ipv6_direct
    }
}

impl Clone for ClusterPolicy {
    fn clone(&self) -> (r: Self)
        ensures
            r@ == self@,
    {
        self.duplicate()
    }
}

/// Where a service can be reached.
#[derive(Debug, PartialEq)]
pub struct BootstrapEndpoint {
    pub kind: BootstrapEndpointKind,
    /// The kind as messages write it.
    pub kind_label: String,
    pub url: String,
    /// The canonical form of the URL, where it has one.
    pub canonical_url: Option<String>,
    /// The address that the URL names, where it is a usable HTTP(S) one with a literal address.
    pub literal_http: Option<SocketAddr>,
    /// The address that the URL names, where it is a usable UDP one with a literal address.
    pub literal_udp: Option<SocketAddr>,
}

/// What a [`BootstrapEndpoint`] holds.
#[verifier::ext_equal]
pub struct BootstrapEndpointView {
    pub kind: BootstrapEndpointKind,
    pub kind_label: Seq<char>,
    pub url: Seq<char>,
    pub canonical_url: Option<Seq<char>>,
    pub literal_http: Option<SocketAddr>,
    pub literal_udp: Option<SocketAddr>,
}

impl View for BootstrapEndpoint {
    type V = BootstrapEndpointView;

    open spec fn view(&self) -> BootstrapEndpointView {
        BootstrapEndpointView {
            kind: self.kind,
            kind_label: self.kind_label@,
            url: self.url@,
            canonical_url: opt_view(self.canonical_url),
            literal_http: self.literal_http,
            literal_udp: self.literal_udp,
        }
    }
}

impl Record for BootstrapEndpoint {
    fn duplicate(&self) -> (r: Self) {
        BootstrapEndpoint {
            kind: self.kind,
            kind_label: self.kind_label.clone(),
            url: self.url.clone(),
            canonical_url: duplicate_option(&self.canonical_url),
            literal_http: self.literal_http,
            literal_udp: self.literal_udp,
        }
    }

    fn alike(&self, other: &Self) -> (r: bool) {
        self.kind == other.kind
            && self.kind_label == other.kind_label
            && self.url == other.url
            && alike_option(&self.canonical_url, &other.canonical_url)
            && self.literal_http == other.literal_http
            && self.literal_udp == other.literal_udp
    }
}

impl Clone for BootstrapEndpoint {
    fn clone(&self) -> (r: Self)
        ensures
            r@ == self@,
    {
        self.duplicate()
    }
}

/// A running service, under a lease.
#[derive(Debug, PartialEq)]
pub struct ServiceInstance {
    pub cluster_id: ClusterId,
    pub instance_id: String,
    pub owner_host_id: String,
    pub owner_node_id: Option<NodeId>,
    pub enrollment_signer: bool,
    pub endpoints: Vec<BootstrapEndpoint>,
    pub lease_expires_at: Timestamp,
    pub updated_at: Timestamp,
}

/// What a [`ServiceInstance`] holds.
#[verifier::ext_equal]
pub struct ServiceInstanceView {
    pub cluster_id: Seq<char>,
    pub instance_id: Seq<char>,
    pub owner_host_id: Seq<char>,
    pub owner_node_id: Option<Seq<char>>,
    pub enrollment_signer: bool,
    pub endpoints: Seq<BootstrapEndpointView>,
    pub lease_expires_at: Timestamp,
    pub updated_at: Timestamp,
}

impl View for ServiceInstance {
    type V = ServiceInstanceView;

    open spec fn view(&self) -> ServiceInstanceView {
        ServiceInstanceView {
            cluster_id: self.cluster_id@,
            instance_id: self.instance_id@,
            owner_host_id: self.owner_host_id@,
            owner_node_id: opt_view(self.owner_node_id),
            enrollment_signer: self.enrollment_signer,
            endpoints: views(self.endpoints@),
            lease_expires_at: self.lease_expires_at,
            updated_at: self.updated_at,
        }
    }
}

impl Record for ServiceInstance {
    fn duplicate(&self) -> (r: Self) {
        ServiceInstance {
            cluster_id: self.cluster_id.clone(),
            instance_id: self.instance_id.clone(),
            owner_host_id: self.owner_host_id.clone(),
            owner_node_id: duplicate_option(&self.owner_node_id),
            enrollment_signer: self.enrollment_signer,
            endpoints: duplicate_all(&self.endpoints),
            lease_expires_at: self.lease_expires_at,
            updated_at: self.updated_at,
        }
    }

    fn alike(&self, other: &Self) -> (r: bool) {
        self.cluster_id == other.cluster_id
            && self.instance_id == other.instance_id
            && self.owner_host_id == other.owner_host_id
            && alike_option(&self.owner_node_id, &other.owner_node_id)
            && self.enrollment_signer == other.enrollment_signer
            && alike_all(&self.endpoints, &other.endpoints)
            && self.lease_expires_at == other.lease_expires_at
            && self.updated_at == other.updated_at
    }
}

impl Clone for ServiceInstance {
    fn clone(&self) -> (r: Self)
        ensures
            r@ == self@,
    {
        self.duplicate()
    }
}

/// The services that a node offers in a heartbeat.
#[derive(Debug, PartialEq)]
pub struct NodeServiceAdvertisement {
    pub hostname: Option<String>,
    pub endpoints: Vec<BootstrapEndpoint>,
}

/// What a [`NodeServiceAdvertisement`] holds.
#[verifier::ext_equal]
pub struct NodeServiceAdvertisementView {
    pub hostname: Option<Seq<char>>,
    pub endpoints: Seq<BootstrapEndpointView>,
}

impl View for NodeServiceAdvertisement {
    type V = NodeServiceAdvertisementView;

    open spec fn view(&self) -> NodeServiceAdvertisementView {
        NodeServiceAdvertisementView {
            hostname: opt_view(self.hostname),
            endpoints: views(self.endpoints@),
        }
    }
}

impl Record for NodeServiceAdvertisement {
    fn duplicate(&self) -> (r: Self) {
        NodeServiceAdvertisement {
            hostname: duplicate_option(&self.hostname),
            endpoints: duplicate_all(&self.endpoints),
        }
    }

    fn alike(&self, other: &Self) -> (r: bool) {
        alike_option(&self.hostname, &other.hostname)
            && alike_all(&self.endpoints, &other.endpoints)
    }
}

impl Clone for NodeServiceAdvertisement {
    fn clone(&self) -> (r: Self)
        ensures
            r@ == self@,
    {
        self.duplicate()
    }
}

/// A heartbeat of a node.
#[derive(Debug, PartialEq)]
pub struct HeartbeatRequest {
    pub node_id: NodeId,
    pub health: NodeHealth,
    pub candidates: Vec<EndpointCandidate>,
    pub nat_classification: Option<NatClassification>,
    pub relay_capability: Option<RelayCapability>,
    pub routes: Option<Vec<Route>>,
    pub service_advertisement: Option<NodeServiceAdvertisement>,
    pub path_state: Vec<PathRecord>,
    /// When the request was signed, where it carries a signature.
    pub signed_at: Option<Timestamp>,
}

/// What a [`HeartbeatRequest`] holds.
#[verifier::ext_equal]
pub struct HeartbeatRequestView {
    pub node_id: Seq<char>,
    pub health: NodeHealthView,
    pub candidates: Seq<EndpointCandidateView>,
    pub nat_classification: Option<NatClassificationView>,
    pub relay_capability: Option<RelayCapabilityView>,
    pub routes: Option<Seq<RouteView>>,
    pub service_advertisement: Option<NodeServiceAdvertisementView>,
    pub path_state: Seq<PathRecordView>,
    pub signed_at: Option<Timestamp>,
}

impl View for HeartbeatRequest {
    type V = HeartbeatRequestView;

    open spec fn view(&self) -> HeartbeatRequestView {
        HeartbeatRequestView {
            node_id: self.node_id@,
            health: self.health@,
            candidates: views(self.candidates@),
            nat_classification: opt_view(self.nat_classification),
            relay_capability: opt_view(self.relay_capability),
            routes: opt_views(self.routes),
            service_advertisement: opt_view(self.service_advertisement),
            path_state: views(self.path_state@),
            signed_at: self.signed_at,
        }
    }
}

impl Record for HeartbeatRequest {
    fn duplicate(&self) -> (r: Self) {
        HeartbeatRequest {
            node_id: self.node_id.clone(),
            health: self.health.duplicate(),
            candidates: duplicate_all(&self.candidates),
            nat_classification: duplicate_option(&self.nat_classification),
            relay_capability: duplicate_option(&self.relay_capability),
            routes: duplicate_option_all(&self.routes),
            service_advertisement: duplicate_option(&self.service_advertisement),
            path_state: duplicate_all(&self.path_state),
            signed_at: self.signed_at,
        }
    }

    fn alike(&self, other: &Self) -> (r: bool) {
        self.node_id == other.node_id
            && self.health.alike(&other.health)
            && alike_all(&self.candidates, &other.candidates)
            && alike_option(&self.nat_classification, &other.nat_classification)
            && alike_option(&self.relay_capability, &other.relay_capability)
            && alike_option_all(&self.routes, &other.routes)
            && alike_option(&self.service_advertisement, &other.service_advertisement)
            && alike_all(&self.path_state, &other.path_state)
            && self.signed_at == other.signed_at
    }
}

impl Clone for HeartbeatRequest {
    fn clone(&self) -> (r: Self)
        ensures
            r@ == self@,
    {
        self.duplicate()
    }
}

/// A request to register a node.
#[derive(Debug, PartialEq)]
pub struct RegisterNodeRequest {
    pub node_id: NodeId,
    pub identity_public_key: String,
    pub wireguard_public_key: String,
    pub candidates: Vec<EndpointCandidate>,
    pub nat_classification: Option<NatClassification>,
    pub relay_capability: Option<RelayCapability>,
    pub requested_routes: Vec<Route>,
}

/// What a [`RegisterNodeRequest`] holds.
#[verifier::ext_equal]
pub struct RegisterNodeRequestView {
    pub node_id: Seq<char>,
    pub identity_public_key: Seq<char>,
    pub wireguard_public_key: Seq<char>,
    pub candidates: Seq<EndpointCandidateView>,
    pub nat_classification: Option<NatClassificationView>,
    pub relay_capability: Option<RelayCapabilityView>,
    pub requested_routes: Seq<RouteView>,
}

impl View for RegisterNodeRequest {
    type V = RegisterNodeRequestView;

    open spec fn view(&self) -> RegisterNodeRequestView {
        RegisterNodeRequestView {
            node_id: self.node_id@,
            identity_public_key: self.identity_public_key@,
            wireguard_public_key: self.wireguard_public_key@,
            candidates: views(self.candidates@),
            nat_classification: opt_view(self.nat_classification),
            relay_capability: opt_view(self.relay_capability),
            requested_routes: views(self.requested_routes@),
        }
    }
}

impl Record for RegisterNodeRequest {
    fn duplicate(&self) -> (r: Self) {
        RegisterNodeRequest {
            node_id: self.node_id.clone(),
            identity_public_key: self.identity_public_key.clone(),
            wireguard_public_key: self.wireguard_public_key.clone(),
            candidates: duplicate_all(&self.candidates),
            nat_classification: duplicate_option(&self.nat_classification),
            relay_capability: duplicate_option(&self.relay_capability),
            requested_routes: duplicate_all(&self.requested_routes),
        }
    }

    fn alike(&self, other: &Self) -> (r: bool) {
        self.node_id == other.node_id
            && self.identity_public_key == other.identity_public_key
            && self.wireguard_public_key == other.wireguard_public_key
            && alike_all(&self.candidates, &other.candidates)
            && alike_option(&self.nat_classification, &other.nat_classification)
            && alike_option(&self.relay_capability, &other.relay_capability)
            && alike_all(&self.requested_routes, &other.requested_routes)
    }
}

impl Clone for RegisterNodeRequest {
    fn clone(&self) -> (r: Self)
        ensures
            r@ == self@,
    {
        self.duplicate()
    }
}

/// What a join token says.
#[derive(Debug, PartialEq)]
pub struct JoinTokenClaims {
    pub cluster_id: ClusterId,
    pub bootstrap_endpoints: Vec<BootstrapEndpoint>,
    pub expires_at: Timestamp,
    pub not_before: Timestamp,
    pub role: Role,
    pub tags: NameSet,
    pub issuer: NodeId,
    pub key_id: KeyId,
    pub policy: TokenPolicy,
    pub nonce: String,
}

/// What a [`JoinTokenClaims`] holds.
#[verifier::ext_equal]
pub struct JoinTokenClaimsView {
    pub cluster_id: Seq<char>,
    pub bootstrap_endpoints: Seq<BootstrapEndpointView>,
    pub expires_at: Timestamp,
    pub not_before: Timestamp,
    pub role: Seq<char>,
    pub tags: Set<Seq<char>>,
    pub issuer: Seq<char>,
    pub key_id: Seq<char>,
    pub policy: TokenPolicyView,
    pub nonce: Seq<char>,
}

impl View for JoinTokenClaims {
    type V = JoinTokenClaimsView;

    open spec fn view(&self) -> JoinTokenClaimsView {
        JoinTokenClaimsView {
            cluster_id: self.cluster_id@,
            bootstrap_endpoints: views(self.bootstrap_endpoints@),
            expires_at: self.expires_at,
            not_before: self.not_before,
            role: self.role@,
            tags: self.tags@,
            issuer: self.issuer@,
            key_id: self.key_id@,
            policy: self.policy@,
            nonce: self.nonce@,
        }
    }
}

impl Record for JoinTokenClaims {
    fn duplicate(&self) -> (r: Self) {
        JoinTokenClaims {
            cluster_id: self.cluster_id.clone(),
            bootstrap_endpoints: duplicate_all(&self.bootstrap_endpoints),
            expires_at: self.expires_at,
            not_before: self.not_before,
            role: self.role.clone(),
            tags: self.tags.clone(),
            issuer: self.issuer.clone(),
            key_id: self.key_id.clone(),
            policy: self.policy.duplicate(),
            nonce: self.nonce.clone(),
        }
    }

    fn alike(&self, other: &Self) -> (r: bool) {
        self.cluster_id == other.cluster_id
            && alike_all(&self.bootstrap_endpoints, &other.bootstrap_endpoints)
            && self.expires_at == other.expires_at
            && self.not_before == other.not_before
            && self.role == other.role
            && self.tags.same_names(&other.tags)
            && self.issuer == other.issuer
            && self.key_id == other.key_id
            && self.policy.alike(&other.policy)
            && self.nonce == other.nonce
    }
}

impl Clone for JoinTokenClaims {
    fn clone(&self) -> (r: Self)
        ensures
            r@ == self@,
    {
        self.duplicate()
    }
}

/// The gateway that a client has chosen.
#[derive(Debug, PartialEq)]
pub struct ClientGatewaySelection {
    pub client_id: NodeId,
    pub gateway_node_id: NodeId,
    pub selected_at: Timestamp,
}

/// What a [`ClientGatewaySelection`] holds.
#[verifier::ext_equal]
pub struct ClientGatewaySelectionView {
    pub client_id: Seq<char>,
    pub gateway_node_id: Seq<char>,
    pub selected_at: Timestamp,
}

impl View for ClientGatewaySelection {
    type V = ClientGatewaySelectionView;

    open spec fn view(&self) -> ClientGatewaySelectionView {
        ClientGatewaySelectionView {
            client_id: self.client_id@,
            gateway_node_id: self.gateway_node_id@,
            selected_at: self.selected_at,
        }
    }
}

impl Record for ClientGatewaySelection {
    fn duplicate(&self) -> (r: Self) {
        ClientGatewaySelection {
            client_id: self.client_id.clone(),
            gateway_node_id: self.gateway_node_id.clone(),
            selected_at: self.selected_at,
        }
    }

    fn alike(&self, other: &Self) -> (r: bool) {
        self.client_id == other.client_id
            && self.gateway_node_id == other.gateway_node_id
            && self.selected_at == other.selected_at
    }
}

impl Clone for ClientGatewaySelection {
    fn clone(&self) -> (r: Self)
        ensures
            r@ == self@,
    {
        self.duplicate()
    }
}

/// The lease under which a node stands ready to run an identity provider.
#[derive(Debug, PartialEq)]
pub struct KeycloakCandidateLease {
    pub cluster_id: ClusterId,
    pub node_id: NodeId,
    pub vpn_ip: IpAddr,
    pub version: String,
    pub ready: bool,
    pub eligible: bool,
    pub generation: i64,
    pub lease_expires_at: Timestamp,
    pub updated_at: Timestamp,
}

/// What a [`KeycloakCandidateLease`] holds.
#[verifier::ext_equal]
pub struct KeycloakCandidateLeaseView {
    pub cluster_id: Seq<char>,
    pub node_id: Seq<char>,
    pub vpn_ip: IpAddr,
    pub version: Seq<char>,
    pub ready: bool,
    pub eligible: bool,
    pub generation: i64,
    pub lease_expires_at: Timestamp,
    pub updated_at: Timestamp,
}

impl View for KeycloakCandidateLease {
    type V = KeycloakCandidateLeaseView;

    open spec fn view(&self) -> KeycloakCandidateLeaseView {
        KeycloakCandidateLeaseView {
            cluster_id: self.cluster_id@,
            node_id: self.node_id@,
            vpn_ip: self.vpn_ip,
            version: self.version@,
            ready: self.ready,
            eligible: self.eligible,
            generation: self.generation,
            lease_expires_at: self.lease_expires_at,
            updated_at: self.updated_at,
        }
    }
}

impl Record for KeycloakCandidateLease {
    fn duplicate(&self) -> (r: Self) {
        KeycloakCandidateLease {
            cluster_id: self.cluster_id.clone(),
            node_id: self.node_id.clone(),
            vpn_ip: self.vpn_ip,
            version: self.version.clone(),
            ready: self.ready,
            eligible: self.eligible,
            generation: self.generation,
            lease_expires_at: self.lease_expires_at,
            updated_at: self.updated_at,
        }
    }

    fn alike(&self, other: &Self) -> (r: bool) {
        self.cluster_id == other.cluster_id
            && self.node_id == other.node_id
            && self.vpn_ip == other.vpn_ip
            && self.version == other.version
            && self.ready == other.ready
            && self.eligible == other.eligible
            && self.generation == other.generation
            && self.lease_expires_at == other.lease_expires_at
            && self.updated_at == other.updated_at
    }
}

impl Clone for KeycloakCandidateLease {
    fn clone(&self) -> (r: Self)
        ensures
            r@ == self@,
    {
        self.duplicate()
    }
}

/// What an accepted heartbeat changes in a store, and what it rests on.
#[derive(Debug, PartialEq)]
pub struct HeartbeatStoreUpdate {
    pub cluster_id: ClusterId,
    pub expected_cluster_policy: Option<ClusterPolicy>,
    pub expected_route_catalog_epoch: Option<u64>,
    pub node_id: NodeId,
    pub expected_identity_public_key: String,
    pub expected_registered_at: Timestamp,
    pub accepted_signature_at: Option<Timestamp>,
    pub hostname: Option<String>,
    pub candidates: Vec<EndpointCandidate>,
    pub nat_classification: Option<NatClassification>,
    pub relay_capability: Option<RelayCapability>,
    pub routes: Option<Vec<Route>>,
    pub health: NodeHealth,
    pub paths: Vec<PathRecord>,
}

/// What a [`HeartbeatStoreUpdate`] holds.
#[verifier::ext_equal]
pub struct HeartbeatStoreUpdateView {
    pub cluster_id: Seq<char>,
    pub expected_cluster_policy: Option<ClusterPolicyView>,
    pub expected_route_catalog_epoch: Option<u64>,
    pub node_id: Seq<char>,
    pub expected_identity_public_key: Seq<char>,
    pub expected_registered_at: Timestamp,
    pub accepted_signature_at: Option<Timestamp>,
    pub hostname: Option<Seq<char>>,
    pub candidates: Seq<EndpointCandidateView>,
    pub nat_classification: Option<NatClassificationView>,
    pub relay_capability: Option<RelayCapabilityView>,
    pub routes: Option<Seq<RouteView>>,
    pub health: NodeHealthView,
    pub paths: Seq<PathRecordView>,
}

impl View for HeartbeatStoreUpdate {
    type V = HeartbeatStoreUpdateView;

    open spec fn view(&self) -> HeartbeatStoreUpdateView {
        HeartbeatStoreUpdateView {
            cluster_id: self.cluster_id@,
            expected_cluster_policy: opt_view(self.expected_cluster_policy),
            expected_route_catalog_epoch: self.expected_route_catalog_epoch,
            node_id: self.node_id@,
            expected_identity_public_key: self.expected_identity_public_key@,
            expected_registered_at: self.expected_registered_at,
            accepted_signature_at: self.accepted_signature_at,
            hostname: opt_view(self.hostname),
            candidates: views(self.candidates@),
            nat_classification: opt_view(self.nat_classification),
            relay_capability: opt_view(self.relay_capability),
            routes: opt_views(self.routes),
            health: self.health@,
            paths: views(self.paths@),
        }
    }
}

impl Record for HeartbeatStoreUpdate {
    fn duplicate(&self) -> (r: Self) {
        HeartbeatStoreUpdate {
            cluster_id: self.cluster_id.clone(),
            expected_cluster_policy: duplicate_option(&self.expected_cluster_policy),
            expected_route_catalog_epoch: self.expected_route_catalog_epoch,
            node_id: self.node_id.clone(),
            expected_identity_public_key: self.expected_identity_public_key.clone(),
            expected_registered_at: self.expected_registered_at,
            accepted_signature_at: self.accepted_signature_at,
            hostname: duplicate_option(&self.hostname),
            candidates: duplicate_all(&self.candidates),
            nat_classification: duplicate_option(&self.nat_classification),
            relay_capability: duplicate_option(&self.relay_capability),
            routes: duplicate_option_all(&self.routes),
            health: self.health.duplicate(),
            paths: duplicate_all(&self.paths),
        }
    }

    fn alike(&self, other: &Self) -> (r: bool) {
        self.cluster_id == other.cluster_id
            && alike_option(&self.expected_cluster_policy, &other.expected_cluster_policy)
            && self.expected_route_catalog_epoch == other.expected_route_catalog_epoch
            && self.node_id == other.node_id
            && self.expected_identity_public_key == other.expected_identity_public_key
            && self.expected_registered_at == other.expected_registered_at
            && self.accepted_signature_at == other.accepted_signature_at
            && alike_option(&self.hostname, &other.hostname)
            && alike_all(&self.candidates, &other.candidates)
            && alike_option(&self.nat_classification, &other.nat_classification)
            && alike_option(&self.relay_capability, &other.relay_capability)
            && alike_option_all(&self.routes, &other.routes)
            && self.health.alike(&other.health)
            && alike_all(&self.paths, &other.paths)
    }
}

impl Clone for HeartbeatStoreUpdate {
    fn clone(&self) -> (r: Self)
        ensures
            r@ == self@,
    {
        self.duplicate()
    }
}

/// What a node that registers again changes in a store, and what that rests on.
#[derive(Debug, PartialEq)]
pub struct RejoinNodeStoreUpdate {
    pub cluster_id: ClusterId,
    pub expected_cluster_policy: Option<ClusterPolicy>,
    pub expected_route_catalog_epoch: Option<u64>,
    pub expected_node: NodeRecord,
    pub candidates: Vec<EndpointCandidate>,
    pub relay_capability: Option<RelayCapability>,
    pub routes: Vec<Route>,
}

/// What a [`RejoinNodeStoreUpdate`] holds.
#[verifier::ext_equal]
pub struct RejoinNodeStoreUpdateView {
    pub cluster_id: Seq<char>,
    pub expected_cluster_policy: Option<ClusterPolicyView>,
    pub expected_route_catalog_epoch: Option<u64>,
    pub expected_node: NodeRecordView,
    pub candidates: Seq<EndpointCandidateView>,
    pub relay_capability: Option<RelayCapabilityView>,
    pub routes: Seq<RouteView>,
}

impl View for RejoinNodeStoreUpdate {
    type V = RejoinNodeStoreUpdateView;

    open spec fn view(&self) -> RejoinNodeStoreUpdateView {
        RejoinNodeStoreUpdateView {
            cluster_id: self.cluster_id@,
            expected_cluster_policy: opt_view(self.expected_cluster_policy),
            expected_route_catalog_epoch: self.expected_route_catalog_epoch,
            expected_node: self.expected_node@,
            candidates: views(self.candidates@),
            relay_capability: opt_view(self.relay_capability),
            routes: views(self.routes@),
        }
    }
}

impl Record for RejoinNodeStoreUpdate {
    fn duplicate(&self) -> (r: Self) {
        RejoinNodeStoreUpdate {
            cluster_id: self.cluster_id.clone(),
            expected_cluster_policy: duplicate_option(&self.expected_cluster_policy),
            expected_route_catalog_epoch: self.expected_route_catalog_epoch,
            expected_node: self.expected_node.duplicate(),
            candidates: duplicate_all(&self.candidates),
            relay_capability: duplicate_option(&self.relay_capability),
            routes: duplicate_all(&self.routes),
        }
    }

    fn alike(&self, other: &Self) -> (r: bool) {
        self.cluster_id == other.cluster_id
            && alike_option(&self.expected_cluster_policy, &other.expected_cluster_policy)
            && self.expected_route_catalog_epoch == other.expected_route_catalog_epoch
            && self.expected_node.alike(&other.expected_node)
            && alike_all(&self.candidates, &other.candidates)
            && alike_option(&self.relay_capability, &other.relay_capability)
            && alike_all(&self.routes, &other.routes)
    }
}

impl Clone for RejoinNodeStoreUpdate {
    fn clone(&self) -> (r: Self)
        ensures
            r@ == self@,
    {
        self.duplicate()
    }
}

/// What is on record of a join token.
#[derive(Debug, PartialEq)]
pub struct TokenLedgerRecord {
    /// What the token says.
    pub claims: JoinTokenClaims,
    pub created_at: Timestamp,
    pub uses: u32,
    pub revoked_at: Option<Timestamp>,
}

/// What a [`TokenLedgerRecord`] holds.
#[verifier::ext_equal]
pub struct TokenLedgerRecordView {
    pub claims: JoinTokenClaimsView,
    pub created_at: Timestamp,
    pub uses: u32,
    pub revoked_at: Option<Timestamp>,
}

impl View for TokenLedgerRecord {
    type V = TokenLedgerRecordView;

    open spec fn view(&self) -> TokenLedgerRecordView {
        TokenLedgerRecordView {
            claims: self.claims@,
            created_at: self.created_at,
            uses: self.uses,
            revoked_at: self.revoked_at,
        }
    }
}

impl Record for TokenLedgerRecord {
    fn duplicate(&self) -> (r: Self) {
        TokenLedgerRecord {
            claims: self.claims.duplicate(),
            created_at: self.created_at,
            uses: self.uses,
            revoked_at: self.revoked_at,
        }
    }

    fn alike(&self, other: &Self) -> (r: bool) {
        self.claims.alike(&other.claims)
            && self.created_at == other.created_at
            && self.uses == other.uses
            && self.revoked_at == other.revoked_at
    }
}

impl Clone for TokenLedgerRecord {
    fn clone(&self) -> (r: Self)
        ensures
            r@ == self@,
    {
        self.duplicate()
    }
}

/// The revocation of a join token.
#[derive(Debug, PartialEq)]
pub struct TokenRevocationRecord {
    pub cluster_id: ClusterId,
    pub nonce: String,
    pub issuer: NodeId,
    pub key_id: KeyId,
    pub revoked_at: Timestamp,
}

/// What a [`TokenRevocationRecord`] holds.
#[verifier::ext_equal]
pub struct TokenRevocationRecordView {
    pub cluster_id: Seq<char>,
    pub nonce: Seq<char>,
    pub issuer: Seq<char>,
    pub key_id: Seq<char>,
    pub revoked_at: Timestamp,
}

impl View for TokenRevocationRecord {
    type V = TokenRevocationRecordView;

    open spec fn view(&self) -> TokenRevocationRecordView {
        TokenRevocationRecordView {
            cluster_id: self.cluster_id@,
            nonce: self.nonce@,
            issuer: self.issuer@,
            key_id: self.key_id@,
            revoked_at: self.revoked_at,
        }
    }
}

impl Record for TokenRevocationRecord {
    fn duplicate(&self) -> (r: Self) {
        TokenRevocationRecord {
            cluster_id: self.cluster_id.clone(),
            nonce: self.nonce.clone(),
            issuer: self.issuer.clone(),
            key_id: self.key_id.clone(),
            revoked_at: self.revoked_at,
        }
    }

    fn alike(&self, other: &Self) -> (r: bool) {
        self.cluster_id == other.cluster_id
            && self.nonce == other.nonce
            && self.issuer == other.issuer
            && self.key_id == other.key_id
            && self.revoked_at == other.revoked_at
    }
}

impl Clone for TokenRevocationRecord {
    fn clone(&self) -> (r: Self)
        ensures
            r@ == self@,
    {
        self.duplicate()
    }
}

} // verus!
