//! Names of the annotations that configure a load balancer.

use vstd::prelude::*;

verus! {

/// Custom name of the balancer on Hetzner Cloud.
pub const LB_NAME_LABEL_NAME: &'static str = "robotlb/balancer";
/// Hetzner Cloud network to attach the balancer to.
pub const LB_NETWORK_LABEL_NAME: &'static str = "robotlb/lb-network";
/// Fixed address of the balancer inside the network.
pub const LB_PRIVATE_IP_LABEL_NAME: &'static str = "robotlb/lb-private-ip";
/// Node selector for the balancer's targets.
pub const LB_NODE_SELECTOR: &'static str = "robotlb/node-selector";
/// Interval between health probes.
pub const LB_CHECK_INTERVAL_ANN_NAME: &'static str = "robotlb/lb-check-interval";
/// Timeout of a single health probe.
pub const LB_TIMEOUT_ANN_NAME: &'static str = "robotlb/lb-timeout";
/// Failed probes before a target counts as unhealthy.
pub const LB_RETRIES_ANN_NAME: &'static str = "robotlb/lb-retries";
/// Whether targets receive the PROXY protocol.
pub const LB_PROXY_MODE_LABEL_NAME: &'static str = "robotlb/lb-proxy-mode";
/// Location of the balancer.
pub const LB_LOCATION_LABEL_NAME: &'static str = "robotlb/lb-location";
/// Balancing algorithm.
pub const LB_ALGORITHM_LABEL_NAME: &'static str = "robotlb/lb-algorithm";
/// Finalizer that keeps a Service until its balancer is removed.
pub const FINALIZER_NAME: &'static str = "robotlb/finalizer";
/// Class of the Gateways that the operator provisions balancers for.
pub const GATEWAY_CLASS_NAME: &'static str = "robotlb";
/// Type of the balancer.
pub const LB_BALANCER_TYPE_LABEL_NAME: &'static str = "robotlb/balancer-type";

} // verus!
