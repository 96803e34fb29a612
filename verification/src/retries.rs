//! Whether to try again what others got in the way of: reading the state of the cluster while it
//! changes, and changing its policy while its routes change.

use vstd::prelude::*;

use crate::error::{ControlPlaneError, ControlPlaneErrorView};
use crate::registration::MAX_ROUTE_CATALOG_UPDATE_RETRIES;

verus! {

/// How often a policy is tried to be put in place.
pub const MAX_POLICY_UPDATE_ATTEMPTS: usize = 3;

/// What follows on an attempt.
#[derive(Debug)]
pub enum RetryStep<T> {
    /// It succeeded.
    Done { value: T },
    /// Another attempt is made.
    Again,
    /// No other attempt is made.
    Failed { error: ControlPlaneError },
}

impl<T> RetryStep<T> {
    /// Why no other attempt is made, where that is so.
    pub open spec fn failure(self) -> Option<ControlPlaneErrorView> {
        match self {
            RetryStep::Failed { error } => Some(error@),
            _ => None,
        }
    }
}

/// The cluster changed while it was looked at.
pub open spec fn changed_meanwhile(error: ControlPlaneErrorView) -> bool {
    error is ClusterPolicyChanged || error is OverlayRouteCatalogChanged
}

/// What follows on an attempt to see the overlay as a whole, of which `earlier` were made before
/// it. However the last one fails to see the cluster at rest, it is its routes that are blamed.
pub fn step_after_snapshot<T>(earlier: usize, outcome: Result<T, ControlPlaneError>) -> (r:
    RetryStep<T>)
    ensures
        match outcome {
            Ok(value) => r == (RetryStep::Done { value }),
            Err(error) => if !changed_meanwhile(error@) {
                r.failure() == Some(error@)
            } else if earlier + 1 < MAX_ROUTE_CATALOG_UPDATE_RETRIES {
                r is Again
            } else {
                r.failure() == Some(ControlPlaneErrorView::OverlayRouteCatalogChanged)
            },
        },
{
    match outcome {
        Ok(value) => RetryStep::Done { value },
        Err(
            ControlPlaneError::ClusterPolicyChanged | ControlPlaneError::OverlayRouteCatalogChanged,
        ) => {
            if earlier < MAX_ROUTE_CATALOG_UPDATE_RETRIES - 1 {
                RetryStep::Again
            } else {
                RetryStep::Failed { error: ControlPlaneError::OverlayRouteCatalogChanged }
            }
        },
        Err(error) => RetryStep::Failed { error },
    }
}

/// What follows on an attempt to read the policy of the cluster together with its routing epoch, of
/// which `earlier` were made before it. The epoch was read before and after the policy: where it
/// stayed the same, the policy is of that epoch.
pub fn step_after_routing_state<T>(earlier: usize, policy: T, before: u64, after: u64) -> (r:
    RetryStep<(T, u64)>)
    ensures
        if before == after {
            r == (RetryStep::Done { value: (policy, after) })
        } else if earlier + 1 < MAX_ROUTE_CATALOG_UPDATE_RETRIES {
            r is Again
        } else {
            r.failure() == Some(ControlPlaneErrorView::ClusterPolicyChanged)
        },
{
    if before == after {
        RetryStep::Done { value: (policy, after) }
    } else if earlier < MAX_ROUTE_CATALOG_UPDATE_RETRIES - 1 {
        RetryStep::Again
    } else {
        RetryStep::Failed { error: ControlPlaneError::ClusterPolicyChanged }
    }
}

/// What follows on an attempt to put a policy in place, of which `earlier` were made before it.
/// `stored` says whether the route catalog was still the one that the policy was held against.
pub fn step_after_policy_update<T>(earlier: usize, policy: T, stored: bool) -> (r: RetryStep<T>)
    ensures
        if stored {
            r == (RetryStep::Done { value: policy })
        } else if earlier + 1 < MAX_POLICY_UPDATE_ATTEMPTS {
            r is Again
        } else {
            r.failure() == Some(ControlPlaneErrorView::ClusterPolicyChanged)
        },
{
    if stored {
        RetryStep::Done { value: policy }
    } else if earlier < MAX_POLICY_UPDATE_ATTEMPTS - 1 {
        RetryStep::Again
    } else {
        RetryStep::Failed { error: ControlPlaneError::ClusterPolicyChanged }
    }
}

} // verus!
