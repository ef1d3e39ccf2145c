//! Load balancers described by Gateway API `Gateway` resources.

use crate::config::OperatorConfig;
use crate::error::{RobotLBError, RobotLBResult};
use crate::lb::sync::port_pairs;
use crate::lb::{error_is, settings_error, settings_from, string_views, LoadBalancer};
use crate::meta::ResourceMeta;
use crate::reconcile::{add_pod_node_targets, pod_node_targets, spec_node_ip_type, NodeInfo, PodInfo};
use crate::routes::{backend_views, determine_port_mappings, spec_port_mappings, BackendInfo};
use crate::string_map::StringMap;
use hcloud::apis::configuration::Configuration as HcloudConfig;
use vstd::prelude::*;

verus! {

/// A load balancer built from a Gateway rather than from a Service; the
/// Gateway's annotations configure it the same way.
#[derive(Debug)]
pub struct GatewayLoadBalancer {
    pub gateway_name: String,
    pub gateway_namespace: String,
    pub lb: LoadBalancer,
}

impl GatewayLoadBalancer {
    /// Builds the balancer from the metadata of a Gateway. Annotation errors
    /// come first, in the order of `LoadBalancer::try_from_meta`; a Gateway
    /// without a namespace is then skipped (`SkipGateway`).
    pub fn try_from_gateway(
        gateway: &ResourceMeta,
        config: &OperatorConfig,
        hcloud_config: &HcloudConfig,
    ) -> (r: RobotLBResult<GatewayLoadBalancer>)
        ensures
            match r {
                Ok(g) => {
                    &&& settings_error(*gateway, *config) is None
                    &&& gateway.namespace is Some
                    &&& settings_from(g.lb, *gateway, *config, *hcloud_config)
                    &&& g.gateway_name@ == gateway.spec_name_any()
                    &&& g.gateway_namespace@ == gateway.namespace->0@
                },
                Err(e) => match settings_error(*gateway, *config) {
                    Some(kind) => error_is(e, kind),
                    None => gateway.namespace is None && e is SkipGateway,
                },
            },
    {
        let lb = match LoadBalancer::try_from_meta(gateway, config, hcloud_config) {
            Ok(lb) => lb,
            Err(e) => return Err(e),
        };
        let gateway_name = gateway.name_any();
        let gateway_namespace = match &gateway.namespace {
            Some(ns) => ns.clone(),
            None => return Err(RobotLBError::SkipGateway),
        };
        Ok(GatewayLoadBalancer { gateway_name, gateway_namespace, lb })
    }

    /// Adds a service (listener) to the load balancer: it listens on
    /// `listen_port` and forwards to `target_port` on all targets.
    pub fn add_service(&mut self, listen_port: i32, target_port: i32)
        ensures
            final(self).lb.services@ == old(self).lb.services@.insert(listen_port, target_port),
            final(self).lb.targets@ == old(self).lb.targets@,
            final(self).lb.same_settings(old(self).lb),
            final(self).gateway_name == old(self).gateway_name,
            final(self).gateway_namespace == old(self).gateway_namespace,
    {
        self.lb.add_service(listen_port, target_port);
    }

    /// Adds a target, identified by its IP address, to the load balancer.
    pub fn add_target(&mut self, ip: &str)
        ensures
            string_views(final(self).lb.targets@) == string_views(old(self).lb.targets@).push(ip@),
            final(self).lb.services@ == old(self).lb.services@,
            final(self).lb.same_settings(old(self).lb),
            final(self).gateway_name == old(self).gateway_name,
            final(self).gateway_namespace == old(self).gateway_namespace,
    {
        self.lb.add_target(ip);
    }
}

/// What a backend Service of a Gateway selects its pods from: the
/// Service's pod selector and the pods of its namespace.
#[derive(Debug, Clone)]
pub struct BackendPods {
    pub selector: Option<StringMap>,
    pub pods: Vec<PodInfo>,
}

/// The target addresses of the nodes on which the pods of each backend run,
/// backend by backend.
pub open spec fn backend_pod_targets(
    nodes: Seq<NodeInfo>,
    backends: Seq<BackendPods>,
    ip_type: Seq<char>,
) -> Seq<Seq<char>>
    decreases backends.len(),
{
    if backends.len() == 0 {
        Seq::empty()
    } else {
        backend_pod_targets(nodes, backends.drop_last(), ip_type) + pod_node_targets(
            nodes,
            backends.last().pods@,
            backends.last().selector,
            ip_type,
        )
    }
}

/// The map that a list of pairs gives, a later pair for a key replacing an
/// earlier one.
spec fn pairs_map(pairs: Seq<(i32, i32)>) -> Map<i32, i32>
    decreases pairs.len(),
{
    if pairs.len() == 0 {
        Map::empty()
    } else {
        pairs_map(pairs.drop_last()).insert(pairs.last().0, pairs.last().1)
    }
}

/// Pairs taken from a map give back that map's keys and values.
proof fn lemma_pairs_map(pairs: Seq<(i32, i32)>, m: Map<i32, i32>)
    requires
        forall|j: int|
            0 <= j < pairs.len() ==> m.contains_key(#[trigger] pairs[j].0) && m[pairs[j].0]
                == pairs[j].1,
    ensures
        forall|k: i32| #[trigger]
            pairs_map(pairs).contains_key(k) ==> m.contains_key(k) && pairs_map(pairs)[k] == m[k],
        forall|k: i32| #[trigger]
            pairs_map(pairs).contains_key(k) <==> exists|j: int| 0 <= j < pairs.len() && pairs[j].0 == k,
    decreases pairs.len(),
{
    if pairs.len() > 0 {
        let pre = pairs.drop_last();
        assert forall|j: int| 0 <= j < pre.len() implies m.contains_key(#[trigger] pre[j].0)
            && m[pre[j].0] == pre[j].1 by {
            assert(pre[j] == pairs[j]);
        }
        lemma_pairs_map(pre, m);
        let last = pairs.len() - 1;
        assert(pairs[last] == pairs.last());
        assert forall|k: i32| #[trigger] pairs_map(pairs).contains_key(k) implies m.contains_key(k)
            && pairs_map(pairs)[k] == m[k] by {
            if k != pairs.last().0 {
                assert(pairs_map(pre).contains_key(k));
            }
        }
        assert forall|k: i32| #[trigger]
            pairs_map(pairs).contains_key(k) <==> exists|j: int|
                0 <= j < pairs.len() && pairs[j].0 == k by {
            if pairs_map(pairs).contains_key(k) && k != pairs.last().0 {
                assert(pairs_map(pre).contains_key(k));
                let j = choose|j: int| 0 <= j < pre.len() && pre[j].0 == k;
                assert(pairs[j] == pre[j]);
            }
            if exists|j: int| 0 <= j < pairs.len() && pairs[j].0 == k {
                let j = choose|j: int| 0 <= j < pairs.len() && pairs[j].0 == k;
                if j < last {
                    assert(pre[j] == pairs[j]);
                    assert(pairs_map(pre).contains_key(k));
                }
            }
        }
    }
}

impl GatewayLoadBalancer {
    /// Configures the balancer from the Gateway's routes: a listener on each
    /// listener port, forwarding to the port that `determine_port_mappings`
    /// gives, and as targets the nodes on which the pods of each backend
    /// Service run.
    pub fn configure(
        &mut self,
        listener_ports: &[i32],
        backends: &[BackendInfo],
        nodes: &[NodeInfo],
        backend_pods: &[BackendPods],
    )
        ensures
            final(self).lb.services@ == old(self).lb.services@.union_prefer_right(
                spec_port_mappings(listener_ports@, backend_views(backends@)),
            ),
            string_views(final(self).lb.targets@) == string_views(old(self).lb.targets@)
                + backend_pod_targets(
                nodes@,
                backend_pods@,
                spec_node_ip_type(old(self).lb.network_name),
            ),
            final(self).lb.same_settings(old(self).lb),
            final(self).gateway_name == old(self).gateway_name,
            final(self).gateway_namespace == old(self).gateway_namespace,
    {
        let mappings = determine_port_mappings(listener_ports, backends);
        let pairs = port_pairs(&mappings);
        let ghost start = self.lb.services@;
        let n = pairs.len();
        for i in 0..n
            invariant
                n == pairs@.len(),
                self.lb.services@ == start.union_prefer_right(pairs_map(pairs@.take(i as int))),
                self.lb.targets@ == old(self).lb.targets@,
                self.lb.same_settings(old(self).lb),
                self.gateway_name == old(self).gateway_name,
                self.gateway_namespace == old(self).gateway_namespace,
        {
            let (listen, target) = pairs[i];
            self.lb.add_service(listen, target);
            assert(pairs@.take(i + 1).drop_last() =~= pairs@.take(i as int));
            assert(pairs@.take(i + 1).last() == pairs@[i as int]);
            assert(self.lb.services@ =~= start.union_prefer_right(pairs_map(pairs@.take(i + 1))));
        }
        proof {
            assert(pairs@.take(n as int) =~= pairs@);
            lemma_pairs_map(pairs@, mappings@);
            assert forall|k: i32| #[trigger] mappings@.contains_key(k) implies pairs_map(
                pairs@,
            ).contains_key(k) by {
                let j = choose|j: int| 0 <= j < pairs@.len() && pairs@[j].0 == k;
            }
            assert(pairs_map(pairs@) =~= mappings@);
        }
        let ghost ip_type = spec_node_ip_type(old(self).lb.network_name);
        let ghost first = string_views(self.lb.targets@);
        let m = backend_pods.len();
        for i in 0..m
            invariant
                m == backend_pods@.len(),
                ip_type == spec_node_ip_type(self.lb.network_name),
                string_views(self.lb.targets@) == first + backend_pod_targets(
                    nodes@,
                    backend_pods@.take(i as int),
                    ip_type,
                ),
                self.lb.services@ == start.union_prefer_right(mappings@),
                self.lb.same_settings(old(self).lb),
                self.gateway_name == old(self).gateway_name,
                self.gateway_namespace == old(self).gateway_namespace,
        {
            let bp = &backend_pods[i];
            add_pod_node_targets(&mut self.lb, nodes, &bp.pods, &bp.selector);
            assert(backend_pods@.take(i + 1).drop_last() =~= backend_pods@.take(i as int));
            assert(backend_pods@.take(i + 1).last() == backend_pods@[i as int]);
            assert(string_views(self.lb.targets@) =~= first + backend_pod_targets(
                nodes@,
                backend_pods@.take(i + 1),
                ip_type,
            ));
        }
        assert(backend_pods@.take(m as int) =~= backend_pods@);
    }
}

} // verus!
