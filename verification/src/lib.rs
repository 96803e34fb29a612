//! The control plane of an overlay network, verified with Verus.
//!
//! Nodes and clients join a cluster with tokens, get addresses, report how they fare, and learn
//! from the control plane whom they may talk to and how. [`ControlPlane`] holds the state of one
//! cluster; each of its operations says exactly what it answers and what it changes. The decisions
//! behind the operations stand in modules of their own, as functions on plain values, for control
//! planes that share a store.
//!
//! Reading the clock, talking to a store over the network, checking signatures and building the
//! topology of the overlay happen outside of this crate. What they find out comes in as arguments.

pub mod acl;
pub mod auth;
pub mod client_routes;
pub mod config;
pub mod control_plane;
pub mod digest;
pub mod directory;
pub mod enrollment;
pub mod epochs;
pub mod error;
pub mod fabric;
pub mod float;
pub mod gateway;
pub mod heartbeat;
pub mod ids;
pub mod intake;
pub mod intents;
pub mod join;
pub mod keycloak;
pub mod lists;
pub mod map;
pub mod membership;
pub mod metrics;
pub mod net;
pub mod nodes;
pub mod order;
pub mod overlay;
pub mod paths;
pub mod peer_maps;
pub mod pins;
pub mod policy;
pub mod registration;
pub mod reports;
pub mod retries;
pub mod route_index;
pub mod route_table;
pub mod routes;
pub mod service;
pub mod sponsorship;
pub mod store;
pub mod text;
pub mod time;
pub mod token;
pub mod topology;
pub mod types;
pub mod vpn;

pub use config::ControlPlaneConfig;
pub use control_plane::ControlPlane;
pub use error::ControlPlaneError;
pub use join::ControlPlaneJoinService;
pub use keycloak::KeycloakPlacement;
pub use registration::{enrollment_role_is_allowed, node_enrollment_role_is_allowed};
pub use routes::overlay_route_catalog_epoch;
pub use store::{InMemoryStore, RemovedNode};
pub use token::{
    ensure_token_definition_matches, InMemoryTokenLedger, IssuerKeyRing, TokenAdmission,
    TokenLedger,
};
pub use types::{HeartbeatStoreUpdate, KeycloakCandidateLease, RejoinNodeStoreUpdate};
