//! What the control plane refuses, and why.

use vstd::prelude::*;

use crate::ids::{KeyId, NodeId};
use crate::net::IpAddr;
use crate::text::{decimal, decimal_text};

verus! {

/// Whether a join token may be used.
#[derive(Debug, Clone, Copy, PartialEq, Eq, Structural)]
pub enum TokenStatus {
    Active,
    Revoked,
    Expired,
    Exhausted,
}

impl TokenStatus {
    /// The name of the status.
    pub open spec fn name(self) -> Seq<char> {
        match self {
            TokenStatus::Active => "active"@,
            TokenStatus::Revoked => "revoked"@,
            TokenStatus::Expired => "expired"@,
            TokenStatus::Exhausted => "exhausted"@,
        }
    }

    /// The name of the status.
    pub fn as_str(&self) -> (r: &'static str)
        ensures
            r@ == self.name(),
    {
        match self {
            TokenStatus::Active => "active",
            TokenStatus::Revoked => "revoked",
            TokenStatus::Expired => "expired",
            TokenStatus::Exhausted => "exhausted",
        }
    }
}

/// Why an operation was refused.
#[derive(Debug)]
pub enum ControlPlaneError {
    /// The join token does not allow the registration.
    JoinDenied,
    /// A node with this identifier, but another identity, exists.
    NodeAlreadyExists { node_id: NodeId },
    /// The VPN address belongs to another node.
    VpnIpAlreadyAllocated { vpn_ip: IpAddr },
    /// The request carries no signature.
    NodeSignatureRequired { node_id: NodeId },
    /// The signature of the request is not accepted.
    NodeSignatureRejected { node_id: NodeId, reason: String },
    /// The nonce of the request was used before.
    NodeRequestReplay { node_id: NodeId },
    /// No more nonces can be kept.
    NodeRequestAuthenticationCapacity,
    /// An update that a node sent is not accepted.
    NodeUpdateRejected { node_id: NodeId, reason: String },
    /// A registration is not accepted.
    NodeRegistrationRejected { node_id: NodeId, reason: String },
    /// No such node is registered.
    NodeNotFound { node_id: NodeId },
    /// No such path is known.
    PathNotFound { local: NodeId, remote: NodeId },
    /// No node that the source may reach owns the destination.
    OverlayDestinationNotFound { destination: IpAddr },
    /// The topology has no path between the two nodes.
    OverlayPathUnavailable { source_node: NodeId, destination_node: NodeId },
    /// The topology could not be built.
    BoundedTopology { reason: String },
    /// The cluster policy is not accepted.
    InvalidClusterPolicy { reason: String },
    /// The cluster policy changed meanwhile.
    ClusterPolicyChanged,
    /// The route catalog changed meanwhile.
    OverlayRouteCatalogChanged,
    /// The node changed meanwhile.
    NodeStateChanged { node_id: NodeId },
    /// A newer lease of the candidate is stored.
    KeycloakCandidateGenerationConflict { node_id: NodeId, generation: i64 },
    /// All addresses of the pool are taken.
    VpnPoolExhausted,
    /// The token policy does not permit the route.
    RouteDenied { route_id: String },
    /// The token policy does not permit relaying.
    RelayDenied,
    /// The token may not be used.
    TokenRejected { nonce: String, status: TokenStatus },
    /// No such token is known.
    TokenNotFound { nonce: String },
    /// The key ring has no such key.
    IssuerKeyNotFound { issuer: NodeId, key_id: KeyId },
    /// The token, or a request about it, is not accepted.
    TokenVerification { reason: String },
    /// The store refused the operation.
    Store { reason: String },
}

/// What a [`ControlPlaneError`] holds.
pub enum ControlPlaneErrorView {
    JoinDenied,
    NodeAlreadyExists { node_id: Seq<char> },
    VpnIpAlreadyAllocated { vpn_ip: IpAddr },
    NodeSignatureRequired { node_id: Seq<char> },
    NodeSignatureRejected { node_id: Seq<char>, reason: Seq<char> },
    NodeRequestReplay { node_id: Seq<char> },
    NodeRequestAuthenticationCapacity,
    NodeUpdateRejected { node_id: Seq<char>, reason: Seq<char> },
    NodeRegistrationRejected { node_id: Seq<char>, reason: Seq<char> },
    NodeNotFound { node_id: Seq<char> },
    PathNotFound { local: Seq<char>, remote: Seq<char> },
    OverlayDestinationNotFound { destination: IpAddr },
    OverlayPathUnavailable { source_node: Seq<char>, destination_node: Seq<char> },
    BoundedTopology { reason: Seq<char> },
    InvalidClusterPolicy { reason: Seq<char> },
    ClusterPolicyChanged,
    OverlayRouteCatalogChanged,
    NodeStateChanged { node_id: Seq<char> },
    KeycloakCandidateGenerationConflict { node_id: Seq<char>, generation: i64 },
    VpnPoolExhausted,
    RouteDenied { route_id: Seq<char> },
    RelayDenied,
    TokenRejected { nonce: Seq<char>, status: TokenStatus },
    TokenNotFound { nonce: Seq<char> },
    IssuerKeyNotFound { issuer: Seq<char>, key_id: Seq<char> },
    TokenVerification { reason: Seq<char> },
    Store { reason: Seq<char> },
}

impl View for ControlPlaneError {
    type V = ControlPlaneErrorView;

    open spec fn view(&self) -> ControlPlaneErrorView {
        match self {
            ControlPlaneError::JoinDenied => ControlPlaneErrorView::JoinDenied,
            ControlPlaneError::NodeAlreadyExists { node_id } => ControlPlaneErrorView::NodeAlreadyExists { node_id: node_id@ },
            ControlPlaneError::VpnIpAlreadyAllocated { vpn_ip } => ControlPlaneErrorView::VpnIpAlreadyAllocated { vpn_ip: *vpn_ip },
            ControlPlaneError::NodeSignatureRequired { node_id } => ControlPlaneErrorView::NodeSignatureRequired { node_id: node_id@ },
            ControlPlaneError::NodeSignatureRejected { node_id, reason } => ControlPlaneErrorView::NodeSignatureRejected { node_id: node_id@, reason: reason@ },
            ControlPlaneError::NodeRequestReplay { node_id } => ControlPlaneErrorView::NodeRequestReplay { node_id: node_id@ },
            ControlPlaneError::NodeRequestAuthenticationCapacity => ControlPlaneErrorView::NodeRequestAuthenticationCapacity,
            ControlPlaneError::NodeUpdateRejected { node_id, reason } => ControlPlaneErrorView::NodeUpdateRejected { node_id: node_id@, reason: reason@ },
            ControlPlaneError::NodeRegistrationRejected { node_id, reason } => ControlPlaneErrorView::NodeRegistrationRejected { node_id: node_id@, reason: reason@ },
            ControlPlaneError::NodeNotFound { node_id } => ControlPlaneErrorView::NodeNotFound { node_id: node_id@ },
            ControlPlaneError::PathNotFound { local, remote } => ControlPlaneErrorView::PathNotFound { local: local@, remote: remote@ },
            ControlPlaneError::OverlayDestinationNotFound { destination } => ControlPlaneErrorView::OverlayDestinationNotFound { destination: *destination },
            ControlPlaneError::OverlayPathUnavailable { source_node, destination_node } => ControlPlaneErrorView::OverlayPathUnavailable { source_node: source_node@, destination_node: destination_node@ },
            ControlPlaneError::BoundedTopology { reason } => ControlPlaneErrorView::BoundedTopology { reason: reason@ },
            ControlPlaneError::InvalidClusterPolicy { reason } => ControlPlaneErrorView::InvalidClusterPolicy { reason: reason@ },
            ControlPlaneError::ClusterPolicyChanged => ControlPlaneErrorView::ClusterPolicyChanged,
            ControlPlaneError::OverlayRouteCatalogChanged => ControlPlaneErrorView::OverlayRouteCatalogChanged,
            ControlPlaneError::NodeStateChanged { node_id } => ControlPlaneErrorView::NodeStateChanged { node_id: node_id@ },
            ControlPlaneError::KeycloakCandidateGenerationConflict { node_id, generation } => ControlPlaneErrorView::KeycloakCandidateGenerationConflict { node_id: node_id@, generation: *generation },
            ControlPlaneError::VpnPoolExhausted => ControlPlaneErrorView::VpnPoolExhausted,
            ControlPlaneError::RouteDenied { route_id } => ControlPlaneErrorView::RouteDenied { route_id: route_id@ },
            ControlPlaneError::RelayDenied => ControlPlaneErrorView::RelayDenied,
            ControlPlaneError::TokenRejected { nonce, status } => ControlPlaneErrorView::TokenRejected { nonce: nonce@, status: *status },
            ControlPlaneError::TokenNotFound { nonce } => ControlPlaneErrorView::TokenNotFound { nonce: nonce@ },
            ControlPlaneError::IssuerKeyNotFound { issuer, key_id } => ControlPlaneErrorView::IssuerKeyNotFound { issuer: issuer@, key_id: key_id@ },
            ControlPlaneError::TokenVerification { reason } => ControlPlaneErrorView::TokenVerification { reason: reason@ },
            ControlPlaneError::Store { reason } => ControlPlaneErrorView::Store { reason: reason@ },
        }
    }
}

/// The error of a result, where it is one.
pub open spec fn refusal<T>(r: Result<T, ControlPlaneError>) -> Option<ControlPlaneErrorView> {
    match r {
        Ok(_) => None,
        Err(e) => Some(e@),
    }
}

/// The reason of a result, where it is one.
pub open spec fn reason_of<T>(r: Result<T, String>) -> Option<Seq<char>> {
    match r {
        Ok(_) => None,
        Err(reason) => Some(reason@),
    }
}

/// `n` written in decimal, with its sign where it is negative.
pub open spec fn signed_decimal(n: int) -> Seq<char> {
    if n < 0 {
        "-"@ + decimal((-n) as nat)
    } else {
        decimal(n as nat)
    }
}

/// Writes `n` in decimal.
pub fn signed_decimal_text(n: i64) -> (r: String)
    ensures
        r@ == signed_decimal(n as int),
{
    if n < 0 {
        "-".to_owned().concat(decimal_text((-(n as i128)) as u64).as_str())
    } else {
        decimal_text(n as u64)
    }
}

impl ControlPlaneErrorView {
    /// The message of the error.
    pub open spec fn message(self) -> Seq<char> {
        match self {
            ControlPlaneErrorView::JoinDenied => "join token does not allow node registration"@,
            ControlPlaneErrorView::NodeAlreadyExists { node_id } => "node "@ + node_id + " already exists"@,
            ControlPlaneErrorView::VpnIpAlreadyAllocated { vpn_ip } => "VPN IP "@ + vpn_ip.display() + " is already allocated"@,
            ControlPlaneErrorView::NodeSignatureRequired { node_id } => "node "@ + node_id + " request signature is required"@,
            ControlPlaneErrorView::NodeSignatureRejected { node_id, reason } => "node "@ + node_id + " request signature rejected: "@ + reason,
            ControlPlaneErrorView::NodeRequestReplay { node_id } => "node "@ + node_id + " request nonce was already accepted"@,
            ControlPlaneErrorView::NodeRequestAuthenticationCapacity => "control-plane node request replay cache is full"@,
            ControlPlaneErrorView::NodeUpdateRejected { node_id, reason } => "node "@ + node_id + " heartbeat update rejected: "@ + reason,
            ControlPlaneErrorView::NodeRegistrationRejected { node_id, reason } => "node "@ + node_id + " registration rejected: "@ + reason,
            ControlPlaneErrorView::NodeNotFound { node_id } => "node not found: "@ + node_id,
            ControlPlaneErrorView::PathNotFound { local, remote } => "path not found: "@ + local + " -> "@ + remote,
            ControlPlaneErrorView::OverlayDestinationNotFound { destination } => "overlay destination not found or denied: "@ + destination.display(),
            ControlPlaneErrorView::OverlayPathUnavailable { source_node, destination_node } => "overlay path is unavailable: "@ + source_node + " -> "@ + destination_node,
            ControlPlaneErrorView::BoundedTopology { reason } => "bounded overlay topology failed: "@ + reason,
            ControlPlaneErrorView::InvalidClusterPolicy { reason } => "cluster policy rejected: "@ + reason,
            ControlPlaneErrorView::ClusterPolicyChanged => "cluster policy changed while validating a route update"@,
            ControlPlaneErrorView::OverlayRouteCatalogChanged => "overlay route catalog changed while validating a route update"@,
            ControlPlaneErrorView::NodeStateChanged { node_id } => "node "@ + node_id + " changed while applying a registration update"@,
            ControlPlaneErrorView::KeycloakCandidateGenerationConflict { node_id, generation } => "Keycloak candidate "@ + node_id + " generation "@ + signed_decimal(generation as int) + " is stale"@,
            ControlPlaneErrorView::VpnPoolExhausted => "no available VPN IP in pool"@,
            ControlPlaneErrorView::RouteDenied { route_id } => "route "@ + route_id + " is not permitted by token policy"@,
            ControlPlaneErrorView::RelayDenied => "relay capability is not permitted by token policy"@,
            ControlPlaneErrorView::TokenRejected { nonce, status } => "token "@ + nonce + " rejected with status "@ + status.name(),
            ControlPlaneErrorView::TokenNotFound { nonce } => "token not found: "@ + nonce,
            ControlPlaneErrorView::IssuerKeyNotFound { issuer, key_id } => "issuer key not found for issuer "@ + issuer + " key "@ + key_id,
            ControlPlaneErrorView::TokenVerification { reason } => "token verification failed: "@ + reason,
            ControlPlaneErrorView::Store { reason } => "store error: "@ + reason,
        }
    }
}

impl ControlPlaneError {
    /// The message of the error.
    pub fn to_text(&self) -> (r: String)
        ensures
            r@ == self@.message(),
    {
        match self {
            ControlPlaneError::JoinDenied => "join token does not allow node registration".to_owned(),
            ControlPlaneError::NodeAlreadyExists { node_id } => "node ".to_owned().concat(node_id.as_str()).concat(" already exists"),
            ControlPlaneError::VpnIpAlreadyAllocated { vpn_ip } => "VPN IP ".to_owned().concat(vpn_ip.to_text().as_str()).concat(" is already allocated"),
            ControlPlaneError::NodeSignatureRequired { node_id } => "node ".to_owned().concat(node_id.as_str()).concat(" request signature is required"),
            ControlPlaneError::NodeSignatureRejected { node_id, reason } => "node ".to_owned().concat(node_id.as_str()).concat(" request signature rejected: ").concat(reason.as_str()),
            ControlPlaneError::NodeRequestReplay { node_id } => "node ".to_owned().concat(node_id.as_str()).concat(" request nonce was already accepted"),
            ControlPlaneError::NodeRequestAuthenticationCapacity => "control-plane node request replay cache is full".to_owned(),
            ControlPlaneError::NodeUpdateRejected { node_id, reason } => "node ".to_owned().concat(node_id.as_str()).concat(" heartbeat update rejected: ").concat(reason.as_str()),
            ControlPlaneError::NodeRegistrationRejected { node_id, reason } => "node ".to_owned().concat(node_id.as_str()).concat(" registration rejected: ").concat(reason.as_str()),
            ControlPlaneError::NodeNotFound { node_id } => "node not found: ".to_owned().concat(node_id.as_str()),
            ControlPlaneError::PathNotFound { local, remote } => "path not found: ".to_owned().concat(local.as_str()).concat(" -> ").concat(remote.as_str()),
            ControlPlaneError::OverlayDestinationNotFound { destination } => "overlay destination not found or denied: ".to_owned().concat(destination.to_text().as_str()),
            ControlPlaneError::OverlayPathUnavailable { source_node, destination_node } => "overlay path is unavailable: ".to_owned().concat(source_node.as_str()).concat(" -> ").concat(destination_node.as_str()),
            ControlPlaneError::BoundedTopology { reason } => "bounded overlay topology failed: ".to_owned().concat(reason.as_str()),
            ControlPlaneError::InvalidClusterPolicy { reason } => "cluster policy rejected: ".to_owned().concat(reason.as_str()),
            ControlPlaneError::ClusterPolicyChanged => "cluster policy changed while validating a route update".to_owned(),
            ControlPlaneError::OverlayRouteCatalogChanged => "overlay route catalog changed while validating a route update".to_owned(),
            ControlPlaneError::NodeStateChanged { node_id } => "node ".to_owned().concat(node_id.as_str()).concat(" changed while applying a registration update"),
            ControlPlaneError::KeycloakCandidateGenerationConflict { node_id, generation } => "Keycloak candidate ".to_owned().concat(node_id.as_str()).concat(" generation ").concat(signed_decimal_text(*generation).as_str()).concat(" is stale"),
            ControlPlaneError::VpnPoolExhausted => "no available VPN IP in pool".to_owned(),
            ControlPlaneError::RouteDenied { route_id } => "route ".to_owned().concat(route_id.as_str()).concat(" is not permitted by token policy"),
            ControlPlaneError::RelayDenied => "relay capability is not permitted by token policy".to_owned(),
            ControlPlaneError::TokenRejected { nonce, status } => "token ".to_owned().concat(nonce.as_str()).concat(" rejected with status ").concat(status.as_str()),
            ControlPlaneError::TokenNotFound { nonce } => "token not found: ".to_owned().concat(nonce.as_str()),
            ControlPlaneError::IssuerKeyNotFound { issuer, key_id } => "issuer key not found for issuer ".to_owned().concat(issuer.as_str()).concat(" key ").concat(key_id.as_str()),
            ControlPlaneError::TokenVerification { reason } => "token verification failed: ".to_owned().concat(reason.as_str()),
            ControlPlaneError::Store { reason } => "store error: ".to_owned().concat(reason.as_str()),
        }
    }
}

} // verus!
