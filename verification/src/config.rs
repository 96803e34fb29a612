//! What a control plane is set up with.

use vstd::prelude::*;

use crate::ids::ClusterId;
use crate::net::Cidr;
use crate::time::Span;
use crate::types::{BootstrapEndpointKind, ClusterPolicy};

verus! {

/// How many nodes have to offer all services for these to be highly available.
pub const DEFAULT_SERVICE_HA_REPLICA_COUNT: usize = 2;

/// The age in seconds up to which the signature of a heartbeat is accepted.
pub const DEFAULT_HEARTBEAT_SIGNATURE_MAX_AGE_SECONDS: u64 = 300;

/// The settings of a control plane.
#[derive(Debug)]
pub struct ControlPlaneConfig {
    pub cluster_id: ClusterId,
    /// The IPv4 network that VPN addresses are taken from.
    pub vpn_pool: Cidr,
    pub cluster_policy: ClusterPolicy,
    pub require_heartbeat_signature: bool,
    pub heartbeat_signature_max_age: Span,
    pub service_ha_replica_count: usize,
}

impl ControlPlaneConfig {
    /// The usual settings for a cluster with its pool of VPN addresses and its first policy.
    pub fn new(cluster_id: ClusterId, vpn_pool: Cidr, cluster_policy: ClusterPolicy) -> (r: Self)
        ensures
            r.cluster_id == cluster_id,
            r.vpn_pool == vpn_pool,
            r.cluster_policy == cluster_policy,
            r.require_heartbeat_signature,
            r.heartbeat_signature_max_age.len() == 300 * 1_000_000_000,
            r.service_ha_replica_count == 2,
    {
        ControlPlaneConfig {
            cluster_id,
            vpn_pool,
            cluster_policy,
            require_heartbeat_signature: true,
            heartbeat_signature_max_age: Span::from_secs(
                DEFAULT_HEARTBEAT_SIGNATURE_MAX_AGE_SECONDS,
            ),
            service_ha_replica_count: DEFAULT_SERVICE_HA_REPLICA_COUNT,
        }
    }
}

/// The limits that all parts of the network agree on.
#[derive(Debug)]
pub struct ProtocolLimits {
    /// What the reason of a path score begins with that reports local activity.
    pub lazy_connect_prefix: String,
    pub max_path_score_reasons: usize,
    pub min_overlay_block_size: u16,
    pub max_overlay_block_size: u16,
    pub supported_max_degrees: Vec<u16>,
    pub max_overlay_degree: u16,
    /// The kinds of service without which no node can join.
    pub core_service_kinds: Vec<BootstrapEndpointKind>,
    pub max_bootstrap_endpoints: usize,
    pub max_bootstrap_endpoints_per_kind: usize,
    pub max_join_token_ttl_seconds: u64,
    pub join_token_not_before_skew_seconds: u32,
    pub client_registration_schema_version: u32,
    pub max_client_registration_validity_seconds: u32,
}

} // verus!
