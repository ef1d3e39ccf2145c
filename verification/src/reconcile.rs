//! Decisions of the reconciliation of a `LoadBalancer` Service: whether to
//! handle it, which nodes become targets, which ports are forwarded, and
//! when to look at it again.

use crate::error::RobotLBError;
use crate::label_filter::{rule_holds, rules_hold, LabelFilter, RuleView};
use crate::lb::{string_views, LoadBalancer};
use crate::meta::opt_view;
use crate::string_map::StringMap;
use vstd::prelude::*;

verus! {

/// Seconds after which a handled Service is looked at again.
pub const REQUEUE_SECONDS: u64 = 30;

/// What to do with a Service.
#[derive(Debug, Clone, Copy, PartialEq, Eq, Structural)]
pub enum ServiceAction {
    /// Not a `LoadBalancer` Service: leave it alone.
    Skip,
    /// The Service is being deleted: remove its balancer and the finalizer.
    Cleanup,
    /// Bring the balancer in line, adding the finalizer first if needed.
    Reconcile { add_finalizer: bool },
}

/// Whether the Service type is `LoadBalancer`; a Service without a type is
/// a `ClusterIP` Service.
pub open spec fn is_load_balancer_type(service_type: Option<String>) -> bool {
    match service_type {
        Some(t) => t@ == "LoadBalancer"@,
        None => false,
    }
}

/// Decides what to do with a Service from its type, whether it is being
/// deleted and whether it carries the operator's finalizer.
pub fn plan_service_reconcile(
    service_type: &Option<String>,
    being_deleted: bool,
    has_finalizer: bool,
) -> (r: ServiceAction)
    ensures
        !is_load_balancer_type(*service_type) ==> r == ServiceAction::Skip,
        is_load_balancer_type(*service_type) && being_deleted ==> r == ServiceAction::Cleanup,
        is_load_balancer_type(*service_type) && !being_deleted ==> r == (ServiceAction::Reconcile {
            add_finalizer: !has_finalizer,
        }),
{
    proof {
        reveal_strlit("ClusterIP");
        reveal_strlit("LoadBalancer");
        assert("ClusterIP"@[0] != "LoadBalancer"@[0]);
    }
    let svc_type = match service_type {
        Some(t) => t.clone(),
        None => "ClusterIP".to_owned(),
    };
    if !(svc_type == "LoadBalancer".to_owned()) {
        return ServiceAction::Skip;
    }
    if being_deleted {
        return ServiceAction::Cleanup;
    }
    ServiceAction::Reconcile { add_finalizer: !has_finalizer }
}

/// When to look at a Service again after a failed reconciliation.
#[derive(Debug, Clone, Copy, PartialEq, Eq, Structural)]
pub enum ErrorAction {
    /// Wait until the Service changes.
    AwaitChange,
    /// Try again after this many seconds.
    Requeue { seconds: u64 },
}

/// A skipped Service waits for a change; any other failure is retried
/// after `REQUEUE_SECONDS`.
pub fn on_error(error: &RobotLBError) -> (r: ErrorAction)
    ensures
        (*error is SkipService) ==> r == ErrorAction::AwaitChange,
        !(*error is SkipService) ==> r == (ErrorAction::Requeue { seconds: REQUEUE_SECONDS }),
{
    match error {
        RobotLBError::SkipService => ErrorAction::AwaitChange,
        _ => ErrorAction::Requeue { seconds: REQUEUE_SECONDS },
    }
}

/// An address of a node, with its type (`InternalIP`, `ExternalIP`, ...).
#[derive(Debug, Clone)]
pub struct NodeAddress {
    pub type_: String,
    pub address: String,
}

/// The part of a node's status that the operator reads.
#[derive(Debug, Clone)]
pub struct NodeStatusInfo {
    pub addresses: Option<Vec<NodeAddress>>,
}

/// What the operator reads of a node: its name, its labels and its status.
#[derive(Debug, Clone)]
pub struct NodeInfo {
    pub name: Option<String>,
    pub labels: StringMap,
    pub status: Option<NodeStatusInfo>,
}

/// What the operator reads of a pod: its labels and the node it was
/// scheduled on, if any.
#[derive(Debug, Clone)]
pub struct PodInfo {
    pub labels: StringMap,
    pub node_name: Option<String>,
}

/// What the operator reads of a port of a Service.
#[derive(Debug, Clone)]
pub struct ServicePortInfo {
    pub port: i32,
    pub protocol: Option<String>,
    pub node_port: Option<i32>,
}

/// The type of node address that becomes a target: the internal one if the
/// balancer is attached to a network, the external one otherwise.
pub open spec fn spec_node_ip_type(network_name: Option<String>) -> Seq<char> {
    if network_name is Some {
        "InternalIP"@
    } else {
        "ExternalIP"@
    }
}

/// The type of node address that becomes a target.
pub fn node_ip_type(network_name: &Option<String>) -> (r: String)
    ensures
        r@ == spec_node_ip_type(*network_name),
{
    if network_name.is_none() {
        "ExternalIP".to_owned()
    } else {
        "InternalIP".to_owned()
    }
}

/// The addresses of the given type, in order.
pub open spec fn addresses_of_type(addresses: Seq<NodeAddress>, ip_type: Seq<char>) -> Seq<
    Seq<char>,
>
    decreases addresses.len(),
{
    if addresses.len() == 0 {
        Seq::empty()
    } else {
        addresses_of_type(addresses.drop_last(), ip_type) + if addresses.last().type_@ == ip_type {
            seq![addresses.last().address@]
        } else {
            Seq::empty()
        }
    }
}

/// A node's addresses of the given type; none if its status or address
/// list is missing.
pub open spec fn node_addresses(node: NodeInfo, ip_type: Seq<char>) -> Seq<Seq<char>> {
    match node.status {
        Some(status) => match status.addresses {
            Some(addresses) => addresses_of_type(addresses@, ip_type),
            None => Seq::empty(),
        },
        None => Seq::empty(),
    }
}

/// The target addresses of the nodes that the rules select, node by node.
pub open spec fn node_targets(nodes: Seq<NodeInfo>, rules: Seq<RuleView>, ip_type: Seq<char>) -> Seq<
    Seq<char>,
>
    decreases nodes.len(),
{
    if nodes.len() == 0 {
        Seq::empty()
    } else {
        node_targets(nodes.drop_last(), rules, ip_type) + if rules_hold(rules, nodes.last().labels) {
            node_addresses(nodes.last(), ip_type)
        } else {
            Seq::empty()
        }
    }
}

/// Adds the addresses of one node of the given type as targets.
fn add_addresses(lb: &mut LoadBalancer, addresses: &Vec<NodeAddress>, ip_type: &String)
    ensures
        string_views(final(lb).targets@) == string_views(old(lb).targets@) + addresses_of_type(
            addresses@,
            ip_type@,
        ),
        final(lb).services@ == old(lb).services@,
        final(lb).same_settings(*old(lb)),
{
    let ghost start = string_views(lb.targets@);
    let n = addresses.len();
    for i in 0..n
        invariant
            n == addresses@.len(),
            string_views(lb.targets@) == start + addresses_of_type(
                addresses@.take(i as int),
                ip_type@,
            ),
            lb.services@ == old(lb).services@,
            lb.same_settings(*old(lb)),
    {
        let addr = &addresses[i];
        assert(addresses@.take(i + 1).drop_last() =~= addresses@.take(i as int));
        assert(addresses@.take(i + 1).last() == addresses@[i as int]);
        if addr.type_ == *ip_type {
            lb.add_target(addr.address.as_str());
            assert(string_views(lb.targets@) =~= start + addresses_of_type(
                addresses@.take(i + 1),
                ip_type@,
            ));
        } else {
            assert(string_views(lb.targets@) =~= start + addresses_of_type(
                addresses@.take(i + 1),
                ip_type@,
            ));
        }
    }
    assert(addresses@.take(n as int) =~= addresses@);
}

/// Adds as targets the addresses of the selected nodes whose type fits the
/// balancer: internal addresses if it is attached to a network, external
/// ones otherwise. Nodes without status or addresses contribute nothing.
pub fn add_node_targets(lb: &mut LoadBalancer, nodes: &[NodeInfo], filter: &LabelFilter)
    ensures
        string_views(final(lb).targets@) == string_views(old(lb).targets@) + node_targets(
            nodes@,
            filter@,
            spec_node_ip_type(old(lb).network_name),
        ),
        final(lb).services@ == old(lb).services@,
        final(lb).same_settings(*old(lb)),
{
    let ip_type = node_ip_type(&lb.network_name);
    let ghost start = string_views(lb.targets@);
    let n = nodes.len();
    for i in 0..n
        invariant
            n == nodes@.len(),
            ip_type@ == spec_node_ip_type(old(lb).network_name),
            string_views(lb.targets@) == start + node_targets(
                nodes@.take(i as int),
                filter@,
                ip_type@,
            ),
            lb.services@ == old(lb).services@,
            lb.same_settings(*old(lb)),
    {
        let node = &nodes[i];
        assert(nodes@.take(i + 1).drop_last() =~= nodes@.take(i as int));
        assert(nodes@.take(i + 1).last() == nodes@[i as int]);
        if filter.check(&node.labels) {
            match &node.status {
                Some(status) => match &status.addresses {
                    Some(addresses) => add_addresses(lb, addresses, &ip_type),
                    None => {},
                },
                None => {},
            }
        }
        assert(string_views(lb.targets@) =~= start + node_targets(
            nodes@.take(i + 1),
            filter@,
            ip_type@,
        ));
    }
    assert(nodes@.take(n as int) =~= nodes@);
}

/// Whether a Service's pod selector picks a pod: the selector is given and
/// not empty, and the pod carries each of its labels with the same value.
pub open spec fn pod_selected(selector: Option<StringMap>, pod: PodInfo) -> bool {
    match selector {
        Some(sel) => {
            &&& exists|k: Seq<char>| #[trigger] sel.spec_get(k) is Some
            &&& forall|k: Seq<char>|
                #[trigger] sel.spec_get(k) is Some ==> pod.labels.spec_get(k) == sel.spec_get(k)
        },
        None => false,
    }
}

/// Whether a pod that the selector picks is scheduled on the node named
/// `name`.
pub open spec fn runs_selected_pod(
    name: Seq<char>,
    pods: Seq<PodInfo>,
    selector: Option<StringMap>,
) -> bool {
    exists|j: int|
        0 <= j < pods.len() && pod_selected(selector, #[trigger] pods[j])
            && opt_view(pods[j].node_name) == Some(name)
}

/// Whether a node becomes a target when nodes are chosen by where the
/// selected pods run: it has a name and a selected pod runs on it.
pub open spec fn node_runs_selected_pod(
    node: NodeInfo,
    pods: Seq<PodInfo>,
    selector: Option<StringMap>,
) -> bool {
    match node.name {
        Some(name) => runs_selected_pod(name@, pods, selector),
        None => false,
    }
}

/// The target addresses of the nodes on which a selected pod runs, node by
/// node.
pub open spec fn pod_node_targets(
    nodes: Seq<NodeInfo>,
    pods: Seq<PodInfo>,
    selector: Option<StringMap>,
    ip_type: Seq<char>,
) -> Seq<Seq<char>>
    decreases nodes.len(),
{
    if nodes.len() == 0 {
        Seq::empty()
    } else {
        pod_node_targets(nodes.drop_last(), pods, selector, ip_type) + if node_runs_selected_pod(
            nodes.last(),
            pods,
            selector,
        ) {
            node_addresses(nodes.last(), ip_type)
        } else {
            Seq::empty()
        }
    }
}

/// Whether the selector picks the pod.
fn selects_pod(selector: &Option<StringMap>, pod: &PodInfo) -> (r: bool)
    ensures
        r == pod_selected(*selector, *pod),
{
    match selector {
        Some(sel) => !sel.is_empty() && sel.is_subset_of(&pod.labels),
        None => false,
    }
}

/// Whether a pod that the selector picks runs on the node named `name`.
fn hosts_selected_pod(name: &String, pods: &[PodInfo], selector: &Option<StringMap>) -> (r: bool)
    ensures
        r == runs_selected_pod(name@, pods@, *selector),
{
    let n = pods.len();
    for j in 0..n
        invariant
            n == pods@.len(),
            forall|m: int|
                0 <= m < j ==> !(pod_selected(*selector, #[trigger] pods@[m]) && opt_view(
                    pods@[m].node_name,
                ) == Some(name@)),
    {
        let pod = &pods[j];
        if selects_pod(selector, pod) {
            if let Some(node_name) = &pod.node_name {
                if *node_name == *name {
                    assert(pods@[j as int] == *pod);
                    return true;
                }
            }
        }
    }
    false
}

/// Adds as targets the addresses of the nodes on which a pod picked by the
/// Service's selector runs, with the address type that fits the balancer.
/// Without a selector, or with an empty one, no node is chosen.
pub fn add_pod_node_targets(
    lb: &mut LoadBalancer,
    nodes: &[NodeInfo],
    pods: &[PodInfo],
    selector: &Option<StringMap>,
)
    ensures
        string_views(final(lb).targets@) == string_views(old(lb).targets@) + pod_node_targets(
            nodes@,
            pods@,
            *selector,
            spec_node_ip_type(old(lb).network_name),
        ),
        final(lb).services@ == old(lb).services@,
        final(lb).same_settings(*old(lb)),
{
    let ip_type = node_ip_type(&lb.network_name);
    let ghost start = string_views(lb.targets@);
    let n = nodes.len();
    for i in 0..n
        invariant
            n == nodes@.len(),
            ip_type@ == spec_node_ip_type(old(lb).network_name),
            string_views(lb.targets@) == start + pod_node_targets(
                nodes@.take(i as int),
                pods@,
                *selector,
                ip_type@,
            ),
            lb.services@ == old(lb).services@,
            lb.same_settings(*old(lb)),
    {
        let node = &nodes[i];
        assert(nodes@.take(i + 1).drop_last() =~= nodes@.take(i as int));
        assert(nodes@.take(i + 1).last() == nodes@[i as int]);
        let chosen = match &node.name {
            Some(name) => hosts_selected_pod(name, pods, selector),
            None => false,
        };
        if chosen {
            match &node.status {
                Some(status) => match &status.addresses {
                    Some(addresses) => add_addresses(lb, addresses, &ip_type),
                    None => {},
                },
                None => {},
            }
        }
        assert(string_views(lb.targets@) =~= start + pod_node_targets(
            nodes@.take(i + 1),
            pods@,
            *selector,
            ip_type@,
        ));
    }
    assert(nodes@.take(n as int) =~= nodes@);
}

/// Without a pod selector no node is chosen, whatever pods run where.
pub proof fn lemma_no_selector_no_pod_targets(
    nodes: Seq<NodeInfo>,
    pods: Seq<PodInfo>,
    ip_type: Seq<char>,
)
    ensures
        pod_node_targets(nodes, pods, None, ip_type) == Seq::<Seq<char>>::empty(),
    decreases nodes.len(),
{
    if nodes.len() > 0 {
        lemma_no_selector_no_pod_targets(nodes.drop_last(), pods, ip_type);
        assert(!node_runs_selected_pod(nodes.last(), pods, None));
        assert(pod_node_targets(nodes, pods, None, ip_type) =~= Seq::<Seq<char>>::empty());
    }
}

/// Whether the selector is given, has at least one label, and the pod
/// carries each of its labels with the same value, written out label by
/// label.
pub open spec fn selector_matches(selector: Option<StringMap>, labels: StringMap) -> bool {
    &&& selector is Some
    &&& exists|k: Seq<char>| #[trigger] selector->0.spec_get(k) is Some
    &&& forall|k: Seq<char>|
        #[trigger] selector->0.spec_get(k) is Some ==> labels.spec_get(k) == selector->0.spec_get(k)
}

/// A named node on which some pod that the selector picks is scheduled
/// gives every address of the chosen type as a target, wherever that pod
/// stands in the list and whatever other pods run on the node.
pub proof fn lemma_node_of_selected_pod_is_target(
    nodes: Seq<NodeInfo>,
    pods: Seq<PodInfo>,
    selector: Option<StringMap>,
    ip_type: Seq<char>,
    i: int,
    j: int,
)
    requires
        0 <= i < nodes.len(),
        0 <= j < pods.len(),
        nodes[i].name is Some,
        pods[j].node_name is Some,
        pods[j].node_name->0@ == nodes[i].name->0@,
        selector_matches(selector, pods[j].labels),
    ensures
        forall|a: Seq<char>|
            #[trigger] node_addresses(nodes[i], ip_type).contains(a) ==> pod_node_targets(
                nodes,
                pods,
                selector,
                ip_type,
            ).contains(a),
    decreases nodes.len(),
{
    let pre = nodes.drop_last();
    let step = if node_runs_selected_pod(nodes.last(), pods, selector) {
        node_addresses(nodes.last(), ip_type)
    } else {
        Seq::empty()
    };
    assert(pod_node_targets(nodes, pods, selector, ip_type) == pod_node_targets(
        pre,
        pods,
        selector,
        ip_type,
    ) + step);
    let all = pod_node_targets(nodes, pods, selector, ip_type);
    let earlier = pod_node_targets(pre, pods, selector, ip_type);
    if i == nodes.len() - 1 {
        assert(nodes.last() == nodes[i]);
        assert(pod_selected(selector, pods[j]));
        assert(opt_view(pods[j].node_name) == Some(nodes[i].name->0@));
        assert(runs_selected_pod(nodes[i].name->0@, pods, selector));
        assert forall|a: Seq<char>| #[trigger]
            node_addresses(nodes[i], ip_type).contains(a) implies all.contains(a) by {
            let k = choose|k: int| 0 <= k < step.len() && step[k] == a;
            assert(all[earlier.len() + k] == a);
        }
    } else {
        assert(pre[i] == nodes[i]);
        lemma_node_of_selected_pod_is_target(pre, pods, selector, ip_type, i, j);
        assert forall|a: Seq<char>| #[trigger]
            node_addresses(nodes[i], ip_type).contains(a) implies all.contains(a) by {
            assert(node_addresses(pre[i], ip_type).contains(a));
            let k = choose|k: int| 0 <= k < earlier.len() && earlier[k] == a;
            assert(all[k] == a);
        }
    }
}

/// Every target comes from a named node on which some pod that the
/// selector picks is scheduled.
pub proof fn lemma_pod_targets_come_from_selected_pods(
    nodes: Seq<NodeInfo>,
    pods: Seq<PodInfo>,
    selector: Option<StringMap>,
    ip_type: Seq<char>,
)
    ensures
        forall|a: Seq<char>|
            #[trigger] pod_node_targets(nodes, pods, selector, ip_type).contains(a) ==> exists|
                i: int,
                j: int,
            |
                0 <= i < nodes.len() && 0 <= j < pods.len() && (#[trigger] nodes[i]).name is Some
                    && (#[trigger] pods[j]).node_name is Some && pods[j].node_name->0@
                    == nodes[i].name->0@ && selector_matches(selector, pods[j].labels)
                    && node_addresses(nodes[i], ip_type).contains(a),
    decreases nodes.len(),
{
    if nodes.len() > 0 {
        let pre = nodes.drop_last();
        lemma_pod_targets_come_from_selected_pods(pre, pods, selector, ip_type);
        let runs = node_runs_selected_pod(nodes.last(), pods, selector);
        let step = if runs {
            node_addresses(nodes.last(), ip_type)
        } else {
            Seq::empty()
        };
        let all = pod_node_targets(nodes, pods, selector, ip_type);
        let earlier = pod_node_targets(pre, pods, selector, ip_type);
        assert(all == earlier + step);
        let last = nodes.len() - 1;
        assert(nodes[last] == nodes.last());
        assert forall|a: Seq<char>| #[trigger] all.contains(a) implies exists|i: int, j: int|
            0 <= i < nodes.len() && 0 <= j < pods.len() && (#[trigger] nodes[i]).name is Some
                && (#[trigger] pods[j]).node_name is Some && pods[j].node_name->0@
                == nodes[i].name->0@ && selector_matches(selector, pods[j].labels)
                && node_addresses(nodes[i], ip_type).contains(a) by {
            let k = choose|k: int| 0 <= k < all.len() && all[k] == a;
            if k < earlier.len() {
                assert(earlier[k] == a);
                assert(earlier.contains(a));
                let (i, j) = choose|i: int, j: int|
                    0 <= i < pre.len() && 0 <= j < pods.len() && (#[trigger] pre[i]).name is Some
                        && (#[trigger] pods[j]).node_name is Some && pods[j].node_name->0@
                        == pre[i].name->0@ && selector_matches(selector, pods[j].labels)
                        && node_addresses(pre[i], ip_type).contains(a);
                assert(nodes[i] == pre[i]);
            } else {
                assert(runs);
                assert(step[k - earlier.len()] == a);
                let name = nodes.last().name->0@;
                let j = choose|j: int|
                    0 <= j < pods.len() && pod_selected(selector, #[trigger] pods[j])
                        && opt_view(pods[j].node_name) == Some(name);
                assert(selector_matches(selector, pods[j].labels));
                assert(node_addresses(nodes[last], ip_type).contains(a));
            }
        }
    }
}

/// Nodes on which no selected pod runs contribute no target.
pub proof fn lemma_nodes_without_selected_pods_add_nothing(
    nodes: Seq<NodeInfo>,
    pods: Seq<PodInfo>,
    selector: Option<StringMap>,
    ip_type: Seq<char>,
)
    requires
        forall|i: int|
            0 <= i < nodes.len() ==> !node_runs_selected_pod(#[trigger] nodes[i], pods, selector),
    ensures
        pod_node_targets(nodes, pods, selector, ip_type) == Seq::<Seq<char>>::empty(),
    decreases nodes.len(),
{
    if nodes.len() > 0 {
        assert forall|i: int| 0 <= i < nodes.drop_last().len() implies !node_runs_selected_pod(
            #[trigger] nodes.drop_last()[i],
            pods,
            selector,
        ) by {
            assert(nodes.drop_last()[i] == nodes[i]);
        }
        lemma_nodes_without_selected_pods_add_nothing(nodes.drop_last(), pods, selector, ip_type);
        assert(nodes.last() == nodes[nodes.len() - 1]);
        assert(pod_node_targets(nodes, pods, selector, ip_type) =~= Seq::<Seq<char>>::empty());
    }
}

/// Whether a port is forwarded: its protocol is TCP (the default) and it
/// has a node port.
pub open spec fn port_forwarded(port: ServicePortInfo) -> bool {
    &&& match port.protocol {
        Some(p) => p@ == "TCP"@,
        None => true,
    }
    &&& port.node_port is Some
}

/// The services after adding, port by port, a listener on each forwarded
/// port that sends traffic to its node port.
pub open spec fn apply_ports(services: Map<i32, i32>, ports: Seq<ServicePortInfo>) -> Map<i32, i32>
    decreases ports.len(),
{
    if ports.len() == 0 {
        services
    } else {
        let earlier = apply_ports(services, ports.drop_last());
        if port_forwarded(ports.last()) {
            earlier.insert(ports.last().port, ports.last().node_port->0)
        } else {
            earlier
        }
    }
}

/// Adds a service for each TCP port of the Service that has a node port:
/// the balancer listens on the port and forwards to the node port. Ports
/// of other protocols, and ports without a node port, are skipped.
pub fn add_service_ports(lb: &mut LoadBalancer, ports: &[ServicePortInfo])
    ensures
        final(lb).services@ == apply_ports(old(lb).services@, ports@),
        final(lb).targets@ == old(lb).targets@,
        final(lb).same_settings(*old(lb)),
{
    let n = ports.len();
    let tcp = "TCP".to_owned();
    for i in 0..n
        invariant
            n == ports@.len(),
            tcp@ == "TCP"@,
            lb.services@ == apply_ports(old(lb).services@, ports@.take(i as int)),
            lb.targets@ == old(lb).targets@,
            lb.same_settings(*old(lb)),
    {
        let port = &ports[i];
        assert(ports@.take(i + 1).drop_last() =~= ports@.take(i as int));
        assert(ports@.take(i + 1).last() == ports@[i as int]);
        let is_tcp = match &port.protocol {
            Some(p) => *p == tcp,
            None => true,
        };
        if is_tcp {
            if let Some(node_port) = port.node_port {
                lb.add_service(port.port, node_port);
            }
        }
    }
    assert(ports@.take(n as int) =~= ports@);
}

/// Nodes that the selector rejects contribute no target.
pub proof fn lemma_unselected_nodes_add_nothing(
    nodes: Seq<NodeInfo>,
    rules: Seq<RuleView>,
    ip_type: Seq<char>,
)
    requires
        forall|i: int| 0 <= i < nodes.len() ==> !rules_hold(rules, #[trigger] nodes[i].labels),
    ensures
        node_targets(nodes, rules, ip_type) == Seq::<Seq<char>>::empty(),
    decreases nodes.len(),
{
    if nodes.len() > 0 {
        assert forall|i: int| 0 <= i < nodes.drop_last().len() implies !rules_hold(
            rules,
            #[trigger] nodes.drop_last()[i].labels,
        ) by {
            assert(nodes.drop_last()[i] == nodes[i]);
        }
        lemma_unselected_nodes_add_nothing(nodes.drop_last(), rules, ip_type);
        assert(nodes.last() == nodes[nodes.len() - 1]);
        assert(node_targets(nodes, rules, ip_type) =~= Seq::<Seq<char>>::empty());
    }
}

/// Whether `a` is the address of one of the entries of the given type.
pub open spec fn is_address_of_type(addresses: Seq<NodeAddress>, ip_type: Seq<char>, a: Seq<char>) -> bool {
    exists|k: int|
        0 <= k < addresses.len() && (#[trigger] addresses[k]).type_@ == ip_type
            && a == addresses[k].address@
}

/// Every target comes from an address of the chosen type.
pub proof fn lemma_targets_have_type(addresses: Seq<NodeAddress>, ip_type: Seq<char>)
    ensures
        forall|i: int|
            0 <= i < addresses_of_type(addresses, ip_type).len() ==> is_address_of_type(
                addresses,
                ip_type,
                #[trigger] addresses_of_type(addresses, ip_type)[i],
            ),
    decreases addresses.len(),
{
    if addresses.len() > 0 {
        let rest = addresses.drop_last();
        let earlier = addresses_of_type(rest, ip_type);
        let all = addresses_of_type(addresses, ip_type);
        lemma_targets_have_type(rest, ip_type);
        assert forall|i: int| 0 <= i < all.len() implies is_address_of_type(
            addresses,
            ip_type,
            #[trigger] all[i],
        ) by {
            if i < earlier.len() {
                assert(all[i] == earlier[i]);
                assert(is_address_of_type(rest, ip_type, earlier[i]));
                let k = choose|k: int|
                    0 <= k < rest.len() && (#[trigger] rest[k]).type_@ == ip_type && earlier[i]
                        == rest[k].address@;
                assert(addresses[k] == rest[k]);
            } else {
                let k = addresses.len() - 1;
                assert(addresses[k] == addresses.last());
                assert(all =~= earlier + seq![addresses.last().address@]);
                assert(all[i] == addresses[k].address@);
            }
        }
    }
}

/// Ports that are not forwarded (not TCP, or without a node port) leave
/// the services as they are.
pub proof fn lemma_unforwarded_ports_change_nothing(
    services: Map<i32, i32>,
    ports: Seq<ServicePortInfo>,
)
    requires
        forall|i: int| 0 <= i < ports.len() ==> !port_forwarded(#[trigger] ports[i]),
    ensures
        apply_ports(services, ports) == services,
    decreases ports.len(),
{
    if ports.len() > 0 {
        assert forall|i: int| 0 <= i < ports.drop_last().len() implies !port_forwarded(
            #[trigger] ports.drop_last()[i],
        ) by {
            assert(ports.drop_last()[i] == ports[i]);
        }
        lemma_unforwarded_ports_change_nothing(services, ports.drop_last());
        assert(ports.last() == ports[ports.len() - 1]);
    }
}

/// A forwarded port ends up as a listener whose destination is the node
/// port of the last forwarded entry for that port.
pub proof fn lemma_forwarded_port_listens(services: Map<i32, i32>, ports: Seq<ServicePortInfo>)
    requires
        ports.len() > 0,
        port_forwarded(ports.last()),
    ensures
        apply_ports(services, ports).contains_key(ports.last().port),
        apply_ports(services, ports)[ports.last().port] == ports.last().node_port->0,
{
}

/// A node's addresses of a type are exactly the addresses of its entries
/// of that type, in order: each such entry gives one.
pub proof fn lemma_addresses_of_type_complete(addresses: Seq<NodeAddress>, ip_type: Seq<char>)
    ensures
        forall|k: int|
            0 <= k < addresses.len() && (#[trigger] addresses[k]).type_@ == ip_type
                ==> addresses_of_type(addresses, ip_type).contains(addresses[k].address@),
        forall|a: Seq<char>|
            #[trigger] addresses_of_type(addresses, ip_type).contains(a) ==> exists|k: int|
                0 <= k < addresses.len() && (#[trigger] addresses[k]).type_@ == ip_type
                    && addresses[k].address@ == a,
        addresses_of_type(addresses, ip_type).len() <= addresses.len(),
    decreases addresses.len(),
{
    if addresses.len() > 0 {
        let pre = addresses.drop_last();
        lemma_addresses_of_type_complete(pre, ip_type);
        lemma_targets_have_type(addresses, ip_type);
        let earlier = addresses_of_type(pre, ip_type);
        let all = addresses_of_type(addresses, ip_type);
        let last = addresses.len() - 1;
        assert(addresses[last] == addresses.last());
        assert forall|k: int|
            0 <= k < addresses.len() && (#[trigger] addresses[k]).type_@ == ip_type implies all.contains(
            addresses[k].address@,
        ) by {
            if k < last {
                assert(pre[k] == addresses[k]);
                assert(earlier.contains(addresses[k].address@));
                let m = choose|m: int| 0 <= m < earlier.len() && earlier[m] == addresses[k].address@;
                assert(all[m] == earlier[m]);
            } else {
                assert(all[all.len() - 1] == addresses[k].address@);
            }
        }
        assert forall|a: Seq<char>| #[trigger] all.contains(a) implies exists|k: int|
            0 <= k < addresses.len() && (#[trigger] addresses[k]).type_@ == ip_type
                && addresses[k].address@ == a by {
            let m = choose|m: int| 0 <= m < all.len() && all[m] == a;
            assert(is_address_of_type(addresses, ip_type, all[m]));
        }
    }
}

/// Whether a node's labels satisfy every rule, each rule written out: a
/// label present, equal to a value, missing or different, or missing.
pub open spec fn labels_satisfy(rules: Seq<RuleView>, labels: StringMap) -> bool {
    forall|i: int|
        0 <= i < rules.len() ==> match #[trigger] rules[i] {
            RuleView::Exists(k) => labels.spec_get(k) is Some,
            RuleView::Equal(k, v) => labels.spec_get(k) == Some(v),
            RuleView::NotEqual(k, v) => labels.spec_get(k) != Some(v),
            RuleView::DoesNotExist(k) => labels.spec_get(k) is None,
        }
}

/// A node whose labels satisfy every rule gives each of its addresses of
/// the chosen type as a target; every target comes from such a node.
pub proof fn lemma_label_targets_exact(
    nodes: Seq<NodeInfo>,
    rules: Seq<RuleView>,
    ip_type: Seq<char>,
)
    ensures
        forall|i: int, a: Seq<char>|
            0 <= i < nodes.len() && labels_satisfy(rules, (#[trigger] nodes[i]).labels)
                && #[trigger] node_addresses(nodes[i], ip_type).contains(a) ==> node_targets(
                nodes,
                rules,
                ip_type,
            ).contains(a),
        forall|a: Seq<char>|
            #[trigger] node_targets(nodes, rules, ip_type).contains(a) ==> exists|i: int|
                0 <= i < nodes.len() && labels_satisfy(rules, (#[trigger] nodes[i]).labels)
                    && node_addresses(nodes[i], ip_type).contains(a),
    decreases nodes.len(),
{
    if nodes.len() > 0 {
        let pre = nodes.drop_last();
        lemma_label_targets_exact(pre, rules, ip_type);
        let all = node_targets(nodes, rules, ip_type);
        let earlier = node_targets(pre, rules, ip_type);
        let last = nodes.len() - 1;
        assert(nodes[last] == nodes.last());
        assert forall|l: StringMap| labels_satisfy(rules, l) <==> #[trigger] rules_hold(rules, l) by {
            if labels_satisfy(rules, l) {
                assert forall|i: int| 0 <= i < rules.len() implies #[trigger] rule_holds(rules[i], l) by {
                    assert(match rules[i] {
                        RuleView::Exists(k) => l.spec_get(k) is Some,
                        RuleView::Equal(k, v) => l.spec_get(k) == Some(v),
                        RuleView::NotEqual(k, v) => l.spec_get(k) != Some(v),
                        RuleView::DoesNotExist(k) => l.spec_get(k) is None,
                    });
                }
            }
            if rules_hold(rules, l) {
                assert forall|i: int| 0 <= i < rules.len() implies match #[trigger] rules[i] {
                    RuleView::Exists(k) => l.spec_get(k) is Some,
                    RuleView::Equal(k, v) => l.spec_get(k) == Some(v),
                    RuleView::NotEqual(k, v) => l.spec_get(k) != Some(v),
                    RuleView::DoesNotExist(k) => l.spec_get(k) is None,
                } by {
                    assert(rule_holds(rules[i], l));
                }
            }
        }
        assert forall|i: int, a: Seq<char>|
            0 <= i < nodes.len() && labels_satisfy(rules, (#[trigger] nodes[i]).labels)
                && #[trigger] node_addresses(nodes[i], ip_type).contains(a) implies all.contains(
            a,
        ) by {
            if i < last {
                assert(pre[i] == nodes[i]);
                assert(earlier.contains(a));
                let m = choose|m: int| 0 <= m < earlier.len() && earlier[m] == a;
                assert(all[m] == earlier[m]);
            } else {
                assert(rules_hold(rules, nodes.last().labels));
                let step = node_addresses(nodes.last(), ip_type);
                let m = choose|m: int| 0 <= m < step.len() && step[m] == a;
                assert(all[earlier.len() + m] == a);
            }
        }
        assert forall|a: Seq<char>| #[trigger] all.contains(a) implies exists|i: int|
            0 <= i < nodes.len() && labels_satisfy(rules, (#[trigger] nodes[i]).labels)
                && node_addresses(nodes[i], ip_type).contains(a) by {
            let m = choose|m: int| 0 <= m < all.len() && all[m] == a;
            if m < earlier.len() {
                assert(earlier[m] == a);
                assert(earlier.contains(a));
                let i = choose|i: int|
                    0 <= i < pre.len() && labels_satisfy(rules, (#[trigger] pre[i]).labels)
                        && node_addresses(pre[i], ip_type).contains(a);
                assert(nodes[i] == pre[i]);
            } else {
                assert(rules_hold(rules, nodes.last().labels));
                assert(node_addresses(nodes[last], ip_type)[m - earlier.len()] == a);
            }
        }
    }
}

/// Ports of a protocol other than TCP, and ports without a node port, leave
/// the services as they are.
pub proof fn lemma_non_tcp_or_unassigned_ports_ignored(
    services: Map<i32, i32>,
    ports: Seq<ServicePortInfo>,
)
    requires
        forall|i: int|
            0 <= i < ports.len() ==> (#[trigger] ports[i]).node_port is None || (
            ports[i].protocol is Some && ports[i].protocol->0@ != "TCP"@),
    ensures
        apply_ports(services, ports) == services,
{
    assert forall|i: int| 0 <= i < ports.len() implies !port_forwarded(#[trigger] ports[i]) by {}
    lemma_unforwarded_ports_change_nothing(services, ports);
}

/// A TCP port (or a port without a protocol) with a node port, listed last,
/// makes the balancer listen on it and forward to its node port.
pub proof fn lemma_tcp_port_forwarded(services: Map<i32, i32>, ports: Seq<ServicePortInfo>)
    requires
        ports.len() > 0,
        ports.last().node_port is Some,
        ports.last().protocol is None || ports.last().protocol->0@ == "TCP"@,
    ensures
        apply_ports(services, ports).contains_key(ports.last().port),
        apply_ports(services, ports)[ports.last().port] == ports.last().node_port->0,
{
}

} // verus!
