//! The load balancer that the operator wants to exist on Hetzner Cloud,
//! and how its settings follow from a resource's annotations.

use crate::config::OperatorConfig;
use crate::consts::{
    LB_ALGORITHM_LABEL_NAME, LB_BALANCER_TYPE_LABEL_NAME, LB_CHECK_INTERVAL_ANN_NAME,
    LB_LOCATION_LABEL_NAME, LB_NAME_LABEL_NAME, LB_NETWORK_LABEL_NAME, LB_PRIVATE_IP_LABEL_NAME,
    LB_PROXY_MODE_LABEL_NAME, LB_RETRIES_ANN_NAME, LB_TIMEOUT_ANN_NAME,
};
use crate::error::{RobotLBError, RobotLBResult};
use crate::meta::{opt_view, ResourceMeta};
use crate::parse::{parse_bool, parse_i32, spec_parse_bool, spec_parse_i32};
use hcloud::apis::configuration::Configuration as HcloudConfig;
use std::collections::HashMap;
use vstd::prelude::*;

pub mod api;
pub mod sync;

verus! {

#[verifier::external_type_specification]
#[verifier::external_body]
pub struct ExHcloudConfig(HcloudConfig);

/// Calls `Clone::clone` of the Hetzner Cloud client configuration. Trusted:
/// the impl is derived, so it clones every field (the base paths, the
/// tokens and the HTTP client handle); the copy is claimed equal to its
/// source.
#[verifier::external_body]
fn clone_hcloud_config(config: &HcloudConfig) -> (r: HcloudConfig)
    ensures
        r == *config,
{
    config.clone()
}

/// How a balancer spreads connections over its targets.
#[derive(Debug, Clone, Copy, PartialEq, Eq, Structural)]
pub enum LBAlgorithm {
    RoundRobin,
    LeastConnections,
}

/// The algorithm that a text names: `round-robin` or `least-connections`.
pub open spec fn spec_parse_algorithm(s: Seq<char>) -> Option<LBAlgorithm> {
    if s == "round-robin"@ {
        Some(LBAlgorithm::RoundRobin)
    } else if s == "least-connections"@ {
        Some(LBAlgorithm::LeastConnections)
    } else {
        None
    }
}

impl LBAlgorithm {
    /// The algorithm that `s` names; any other text is `UnknownLBAlgorithm`.
    pub fn from_str(s: &str) -> (r: RobotLBResult<LBAlgorithm>)
        ensures
            match r {
                Ok(a) => spec_parse_algorithm(s@) == Some(a),
                Err(e) => spec_parse_algorithm(s@) is None && e is UnknownLBAlgorithm,
            },
    {
        let text = s.to_owned();
        if text == "round-robin".to_owned() {
            Ok(LBAlgorithm::RoundRobin)
        } else if text == "least-connections".to_owned() {
            Ok(LBAlgorithm::LeastConnections)
        } else {
            Err(RobotLBError::UnknownLBAlgorithm)
        }
    }
}

/// The desired state of one Hetzner Cloud load balancer.
#[derive(Debug)]
pub struct LoadBalancer {
    pub name: String,
    pub private_ip: Option<String>,
    pub balancer_type: String,
    pub check_interval: i32,
    pub timeout: i32,
    pub retries: i32,
    pub location: String,
    pub proxy_mode: bool,
    pub network_name: Option<String>,
    pub algorithm: LBAlgorithm,
    /// Listen port to destination port.
    pub services: HashMap<i32, i32>,
    /// Addresses of the target servers.
    pub targets: Vec<String>,
    pub hcloud_config: HcloudConfig,
}

/// The character sequences of a list of strings.
pub open spec fn string_views(s: Seq<String>) -> Seq<Seq<char>> {
    s.map_values(|x: String| x@)
}

/// The kinds of settings that can fail to parse, in the order in which they
/// are read.
pub enum SettingsError {
    InvalidInteger,
    InvalidBoolean,
    UnknownAlgorithm,
}

/// Whether an error is of the kind given.
pub open spec fn error_is(e: RobotLBError, kind: SettingsError) -> bool {
    match kind {
        SettingsError::InvalidInteger => e is InvalidIntegerValue,
        SettingsError::InvalidBoolean => e is InvalidBooleanValue,
        SettingsError::UnknownAlgorithm => e is UnknownLBAlgorithm,
    }
}

/// An integer annotation, or `default` where it is absent; `None` where it
/// does not parse.
pub open spec fn annotation_i32(meta: ResourceMeta, key: Seq<char>, default: i32) -> Option<i32> {
    match meta.spec_annotation(key) {
        Some(s) => spec_parse_i32(s),
        None => Some(default),
    }
}

/// A boolean annotation, or `default` where it is absent; `None` where it
/// does not parse.
pub open spec fn annotation_bool(meta: ResourceMeta, key: Seq<char>, default: bool) -> Option<
    bool,
> {
    match meta.spec_annotation(key) {
        Some(s) => spec_parse_bool(s),
        None => Some(default),
    }
}

/// A text annotation, or `default` where it is absent.
pub open spec fn annotation_or(meta: ResourceMeta, key: Seq<char>, default: Seq<char>) -> Seq<
    char,
> {
    match meta.spec_annotation(key) {
        Some(s) => s,
        None => default,
    }
}

/// The balancing algorithm: the annotation's, else the configured default.
pub open spec fn annotation_algorithm(meta: ResourceMeta, config: OperatorConfig) -> Option<
    LBAlgorithm,
> {
    spec_parse_algorithm(annotation_or(meta, LB_ALGORITHM_LABEL_NAME@, config.default_lb_algorithm@))
}

/// The first setting that fails to parse, reading retries, timeout, check
/// interval, proxy mode and algorithm in that order.
pub open spec fn settings_error(meta: ResourceMeta, config: OperatorConfig) -> Option<SettingsError> {
    if annotation_i32(meta, LB_RETRIES_ANN_NAME@, config.default_lb_retries) is None {
        Some(SettingsError::InvalidInteger)
    } else if annotation_i32(meta, LB_TIMEOUT_ANN_NAME@, config.default_lb_timeout) is None {
        Some(SettingsError::InvalidInteger)
    } else if annotation_i32(meta, LB_CHECK_INTERVAL_ANN_NAME@, config.default_lb_interval) is None {
        Some(SettingsError::InvalidInteger)
    } else if annotation_bool(
        meta,
        LB_PROXY_MODE_LABEL_NAME@,
        config.default_lb_proxy_mode_enabled,
    ) is None {
        Some(SettingsError::InvalidBoolean)
    } else if annotation_algorithm(meta, config) is None {
        Some(SettingsError::UnknownAlgorithm)
    } else {
        None
    }
}

/// The balancer that the annotations of `meta` and the defaults of `config`
/// describe, before any service or target is added.
pub open spec fn settings_from(
    lb: LoadBalancer,
    meta: ResourceMeta,
    config: OperatorConfig,
    hcloud_config: HcloudConfig,
) -> bool {
    &&& lb.retries == annotation_i32(meta, LB_RETRIES_ANN_NAME@, config.default_lb_retries)->0
    &&& lb.timeout == annotation_i32(meta, LB_TIMEOUT_ANN_NAME@, config.default_lb_timeout)->0
    &&& lb.check_interval == annotation_i32(
        meta,
        LB_CHECK_INTERVAL_ANN_NAME@,
        config.default_lb_interval,
    )->0
    &&& lb.proxy_mode == annotation_bool(
        meta,
        LB_PROXY_MODE_LABEL_NAME@,
        config.default_lb_proxy_mode_enabled,
    )->0
    &&& lb.algorithm == annotation_algorithm(meta, config)->0
    &&& lb.location@ == annotation_or(meta, LB_LOCATION_LABEL_NAME@, config.default_lb_location@)
    &&& lb.balancer_type@ == annotation_or(
        meta,
        LB_BALANCER_TYPE_LABEL_NAME@,
        config.default_balancer_type@,
    )
    &&& opt_view(lb.network_name) == match meta.spec_annotation(LB_NETWORK_LABEL_NAME@) {
        Some(n) => Some(n),
        None => opt_view(config.default_network),
    }
    &&& opt_view(lb.private_ip) == meta.spec_annotation(LB_PRIVATE_IP_LABEL_NAME@)
    &&& lb.name@ == annotation_or(meta, LB_NAME_LABEL_NAME@, meta.spec_name_any())
    &&& lb.services@ == Map::<i32, i32>::empty()
    &&& lb.targets@.len() == 0
    &&& lb.hcloud_config == hcloud_config
}

/// Reads an integer annotation, falling back to `default`.
fn read_i32_annotation(meta: &ResourceMeta, key: &str, default: i32) -> (r: RobotLBResult<i32>)
    ensures
        match r {
            Ok(v) => annotation_i32(*meta, key@, default) == Some(v),
            Err(e) => annotation_i32(*meta, key@, default) is None && e is InvalidIntegerValue,
        },
{
    match meta.annotation(key) {
        Some(text) => match parse_i32(text.as_str()) {
            Ok(v) => Ok(v),
            Err(e) => Err(RobotLBError::InvalidIntegerValue(e)),
        },
        None => Ok(default),
    }
}

/// Reads a boolean annotation, falling back to `default`.
fn read_bool_annotation(meta: &ResourceMeta, key: &str, default: bool) -> (r: RobotLBResult<bool>)
    ensures
        match r {
            Ok(v) => annotation_bool(*meta, key@, default) == Some(v),
            Err(e) => annotation_bool(*meta, key@, default) is None && e is InvalidBooleanValue,
        },
{
    match meta.annotation(key) {
        Some(text) => match parse_bool(text.as_str()) {
            Ok(v) => Ok(v),
            Err(e) => Err(RobotLBError::InvalidBooleanValue(e)),
        },
        None => Ok(default),
    }
}

/// Reads a text annotation, falling back to `default`.
fn read_text_annotation(meta: &ResourceMeta, key: &str, default: &String) -> (r: String)
    ensures
        r@ == annotation_or(*meta, key@, default@),
{
    match meta.annotation(key) {
        Some(text) => text.clone(),
        None => default.clone(),
    }
}

impl LoadBalancer {
    /// Builds the desired balancer from the annotations of a resource, with
    /// the operator's defaults where an annotation is absent. Fails on the
    /// first setting that does not parse, in the order retries, timeout,
    /// check interval, proxy mode, algorithm.
    pub fn try_from_meta(
        meta: &ResourceMeta,
        config: &OperatorConfig,
        hcloud_config: &HcloudConfig,
    ) -> (r: RobotLBResult<LoadBalancer>)
        ensures
            match r {
                Ok(lb) => settings_error(*meta, *config) is None && settings_from(
                    lb,
                    *meta,
                    *config,
                    *hcloud_config,
                ),
                Err(e) => match settings_error(*meta, *config) {
                    Some(kind) => error_is(e, kind),
                    None => false,
                },
            },
    {
        let retries = match read_i32_annotation(meta, LB_RETRIES_ANN_NAME, config.default_lb_retries) {
            Ok(v) => v,
            Err(e) => return Err(e),
        };
        let timeout = match read_i32_annotation(meta, LB_TIMEOUT_ANN_NAME, config.default_lb_timeout) {
            Ok(v) => v,
            Err(e) => return Err(e),
        };
        let check_interval = match read_i32_annotation(
            meta,
            LB_CHECK_INTERVAL_ANN_NAME,
            config.default_lb_interval,
        ) {
            Ok(v) => v,
            Err(e) => return Err(e),
        };
        let proxy_mode = match read_bool_annotation(
            meta,
            LB_PROXY_MODE_LABEL_NAME,
            config.default_lb_proxy_mode_enabled,
        ) {
            Ok(v) => v,
            Err(e) => return Err(e),
        };
        let location = read_text_annotation(meta, LB_LOCATION_LABEL_NAME, &config.default_lb_location);
        let balancer_type = read_text_annotation(
            meta,
            LB_BALANCER_TYPE_LABEL_NAME,
            &config.default_balancer_type,
        );
        let algorithm_text = match meta.annotation(LB_ALGORITHM_LABEL_NAME) {
            Some(text) => text.as_str(),
            None => config.default_lb_algorithm.as_str(),
        };
        let algorithm = match LBAlgorithm::from_str(algorithm_text) {
            Ok(a) => a,
            Err(e) => return Err(e),
        };
        let network_name = match meta.annotation(LB_NETWORK_LABEL_NAME) {
            Some(n) => Some(n.clone()),
            None => config.default_network.clone(),
        };
        let private_ip = match meta.annotation(LB_PRIVATE_IP_LABEL_NAME) {
            Some(ip) => Some(ip.clone()),
            None => None,
        };
        let name = match meta.annotation(LB_NAME_LABEL_NAME) {
            Some(n) => n.clone(),
            None => meta.name_any(),
        };
        Ok(LoadBalancer {
            name,
            private_ip,
            balancer_type,
            check_interval,
            timeout,
            retries,
            location,
            proxy_mode,
            network_name,
            algorithm,
            services: HashMap::new(),
            targets: Vec::new(),
            hcloud_config: clone_hcloud_config(hcloud_config),
        })
    }

    /// Whether two balancers agree on everything but services and targets.
    pub open spec fn same_settings(&self, other: LoadBalancer) -> bool {
        &&& self.name == other.name
        &&& self.private_ip == other.private_ip
        &&& self.balancer_type == other.balancer_type
        &&& self.check_interval == other.check_interval
        &&& self.timeout == other.timeout
        &&& self.retries == other.retries
        &&& self.location == other.location
        &&& self.proxy_mode == other.proxy_mode
        &&& self.network_name == other.network_name
        &&& self.algorithm == other.algorithm
        &&& self.hcloud_config == other.hcloud_config
    }

    /// Adds a service (listener): traffic that arrives on `listen_port` goes
    /// to `target_port` on every target. A service already on that port is
    /// replaced.
    pub fn add_service(&mut self, listen_port: i32, target_port: i32)
        ensures
            final(self).services@ == old(self).services@.insert(listen_port, target_port),
            final(self).targets@ == old(self).targets@,
            final(self).same_settings(*old(self)),
    {
        broadcast use vstd::std_specs::hash::group_hash_axioms;

        self.services.insert(listen_port, target_port);
    }

    /// Adds a target, identified by its IP address, at the end of the list.
    pub fn add_target(&mut self, ip: &str)
        ensures
            string_views(final(self).targets@) == string_views(old(self).targets@).push(ip@),
            final(self).services@ == old(self).services@,
            final(self).same_settings(*old(self)),
    {
        let ghost before = self.targets@;
        self.targets.push(ip.to_owned());
        assert(string_views(self.targets@) =~= string_views(before).push(ip@));
    }
}

/// A resource without annotations gets a balancer made of the operator's
/// defaults, named after the resource; it fails only if the default
/// algorithm is not a known one.
pub proof fn lemma_defaults_without_annotations(
    lb: LoadBalancer,
    meta: ResourceMeta,
    config: OperatorConfig,
    hcloud_config: HcloudConfig,
)
    requires
        meta.annotations is None,
    ensures
        settings_error(meta, config) is None <==> spec_parse_algorithm(
            config.default_lb_algorithm@,
        ) is Some,
        settings_from(lb, meta, config, hcloud_config) && settings_error(meta, config) is None ==> {
            &&& lb.retries == config.default_lb_retries
            &&& lb.timeout == config.default_lb_timeout
            &&& lb.check_interval == config.default_lb_interval
            &&& lb.proxy_mode == config.default_lb_proxy_mode_enabled
            &&& Some(lb.algorithm) == spec_parse_algorithm(config.default_lb_algorithm@)
            &&& lb.location@ == config.default_lb_location@
            &&& lb.balancer_type@ == config.default_balancer_type@
            &&& opt_view(lb.network_name) == opt_view(config.default_network)
            &&& lb.private_ip is None
            &&& lb.name@ == meta.spec_name_any()
        },
{
}

/// An annotation that is present and parses always wins over the default.
pub proof fn lemma_annotation_overrides_default(
    lb: LoadBalancer,
    meta: ResourceMeta,
    config: OperatorConfig,
    hcloud_config: HcloudConfig,
    retries_text: Seq<char>,
)
    requires
        settings_from(lb, meta, config, hcloud_config),
        meta.spec_annotation(LB_RETRIES_ANN_NAME@) == Some(retries_text),
        spec_parse_i32(retries_text) is Some,
    ensures
        lb.retries == spec_parse_i32(retries_text)->0,
{
}

} // verus!
