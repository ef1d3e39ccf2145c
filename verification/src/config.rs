//! Settings of the operator, as given on its command line or environment.

use vstd::prelude::*;

verus! {

/// The operator's settings; each `default_*` value applies where a resource
/// carries no annotation of its own.
#[derive(Debug, Clone)]
pub struct OperatorConfig {
    /// Hetzner Cloud API token.
    pub hcloud_token: String,
    /// Network used when a resource names none.
    pub default_network: Option<String>,
    /// Whether targets are found from where the pods run rather than from the node selector.
    pub dynamic_node_selector: bool,
    /// Health check retries.
    pub default_lb_retries: i32,
    /// Health check timeout.
    pub default_lb_timeout: i32,
    /// Health check interval.
    pub default_lb_interval: i32,
    /// Location of new balancers.
    pub default_lb_location: String,
    /// Type of new balancers.
    pub default_balancer_type: String,
    /// Balancing algorithm, as text.
    pub default_lb_algorithm: String,
    /// Whether proxy mode is on.
    pub default_lb_proxy_mode_enabled: bool,
    /// Whether the balancer's IPv6 address is published as ingress too.
    pub ipv6_ingress: bool,
    /// Log level, as text.
    pub log_level: String,
}

} // verus!
