//! Planning the calls that bring a Hetzner Cloud load balancer in line with
//! the desired one: which networks to detach and attach, whether to change
//! the algorithm or the type, which listeners to delete, update and add,
//! and which targets to remove and add.

use crate::lb::{string_views, LBAlgorithm, LoadBalancer};
use crate::meta::opt_view;
use std::collections::HashMap;
use vstd::prelude::*;
use vstd::std_specs::hash::spec_hash_map_iter;
use vstd::std_specs::iter::IteratorSpec;

verus! {

/// A listener of a balancer: the port it listens on, the port on the
/// targets it forwards to, and its proxy and health check settings.
#[derive(Debug, Clone, Copy, PartialEq, Eq, Structural)]
pub struct ServiceConfig {
    pub listen_port: i32,
    pub destination_port: i32,
    pub proxy_mode: bool,
    pub check_interval: i32,
    pub timeout: i32,
    pub retries: i32,
}

/// What Hetzner Cloud reports of an existing balancer: its algorithm and
/// type, its listeners, the addresses of its IP targets and the networks it
/// is attached to.
#[derive(Debug, Clone)]
pub struct CurrentBalancer {
    pub algorithm: LBAlgorithm,
    pub balancer_type: String,
    pub services: Vec<ServiceConfig>,
    pub targets: Vec<String>,
    pub networks: Vec<i64>,
}

/// One call to the Hetzner Cloud API.
#[derive(Debug, Clone, PartialEq, Eq)]
pub enum SyncAction {
    DetachNetwork(i64),
    AttachNetwork { network: i64, ip: Option<String> },
    ChangeAlgorithm(LBAlgorithm),
    ChangeType(String),
    DeleteService(i32),
    UpdateService(ServiceConfig),
    AddService(ServiceConfig),
    RemoveTarget(String),
    AddTarget(String),
}

/// A call as plain values.
pub enum SyncActionView {
    DetachNetwork(i64),
    AttachNetwork { network: i64, ip: Option<Seq<char>> },
    ChangeAlgorithm(LBAlgorithm),
    ChangeType(Seq<char>),
    DeleteService(i32),
    UpdateService(ServiceConfig),
    AddService(ServiceConfig),
    RemoveTarget(Seq<char>),
    AddTarget(Seq<char>),
}

impl View for SyncAction {
    type V = SyncActionView;

    open spec fn view(&self) -> SyncActionView {
        match self {
            SyncAction::DetachNetwork(n) => SyncActionView::DetachNetwork(*n),
            SyncAction::AttachNetwork { network, ip } => SyncActionView::AttachNetwork {
                network: *network,
                ip: match ip {
                    Some(a) => Some(a@),
                    None => None,
                },
            },
            SyncAction::ChangeAlgorithm(a) => SyncActionView::ChangeAlgorithm(*a),
            SyncAction::ChangeType(t) => SyncActionView::ChangeType(t@),
            SyncAction::DeleteService(p) => SyncActionView::DeleteService(*p),
            SyncAction::UpdateService(c) => SyncActionView::UpdateService(*c),
            SyncAction::AddService(c) => SyncActionView::AddService(*c),
            SyncAction::RemoveTarget(t) => SyncActionView::RemoveTarget(t@),
            SyncAction::AddTarget(t) => SyncActionView::AddTarget(t@),
        }
    }
}

/// The views of a list of calls.
pub open spec fn action_views(s: Seq<SyncAction>) -> Seq<SyncActionView> {
    s.map_values(|a: SyncAction| a@)
}

/// The listener that the balancer wants on `port`.
pub open spec fn desired_service(lb: LoadBalancer, port: i32) -> ServiceConfig {
    ServiceConfig {
        listen_port: port,
        destination_port: lb.services@[port],
        proxy_mode: lb.proxy_mode,
        check_interval: lb.check_interval,
        timeout: lb.timeout,
        retries: lb.retries,
    }
}

/// Detach every current network other than the wanted one.
pub open spec fn network_detaches(current: Seq<i64>, network: Option<i64>) -> Seq<SyncActionView>
    decreases current.len(),
{
    if current.len() == 0 {
        Seq::empty()
    } else {
        network_detaches(current.drop_last(), network) + if network == Some(current.last()) {
            Seq::empty()
        } else {
            seq![SyncActionView::DetachNetwork(current.last())]
        }
    }
}

/// Attach the wanted network, with the wanted private address, if the
/// balancer is not attached to it yet.
pub open spec fn network_attach(current: Seq<i64>, network: Option<i64>, ip: Option<Seq<char>>) -> Seq<
    SyncActionView,
> {
    match network {
        Some(n) => if current.contains(n) {
            Seq::empty()
        } else {
            seq![SyncActionView::AttachNetwork { network: n, ip }]
        },
        None => Seq::empty(),
    }
}

/// Change the algorithm if it differs.
pub open spec fn algorithm_change(current: LBAlgorithm, wanted: LBAlgorithm) -> Seq<SyncActionView> {
    if current == wanted {
        Seq::empty()
    } else {
        seq![SyncActionView::ChangeAlgorithm(wanted)]
    }
}

/// Change the type if it differs.
pub open spec fn type_change(current: Seq<char>, wanted: Seq<char>) -> Seq<SyncActionView> {
    if current == wanted {
        Seq::empty()
    } else {
        seq![SyncActionView::ChangeType(wanted)]
    }
}

/// For each current listener in order: delete it if its port is no longer
/// wanted, update it if it differs from the wanted one, else leave it.
pub open spec fn service_changes(current: Seq<ServiceConfig>, lb: LoadBalancer) -> Seq<SyncActionView>
    decreases current.len(),
{
    if current.len() == 0 {
        Seq::empty()
    } else {
        let s = current.last();
        service_changes(current.drop_last(), lb) + if !lb.services@.contains_key(s.listen_port) {
            seq![SyncActionView::DeleteService(s.listen_port)]
        } else if s != desired_service(lb, s.listen_port) {
            seq![SyncActionView::UpdateService(desired_service(lb, s.listen_port))]
        } else {
            Seq::empty()
        }
    }
}

/// Whether some current listener on `port` differs from the wanted one.
pub open spec fn port_differs(current: Seq<ServiceConfig>, lb: LoadBalancer, port: i32) -> bool {
    exists|i: int|
        0 <= i < current.len() && current[i].listen_port == port && current[i] != desired_service(
            lb,
            port,
        )
}

/// Whether some current listener uses `port`.
pub open spec fn has_port(current: Seq<ServiceConfig>, port: i32) -> bool {
    exists|i: int| 0 <= i < current.len() && #[trigger] current[i].listen_port == port
}

/// Whether `adds` adds, once each and in some order, the wanted listener of
/// every wanted port that no current listener uses, and nothing else.
pub open spec fn additions_exact(
    adds: Seq<SyncActionView>,
    lb: LoadBalancer,
    current: Seq<ServiceConfig>,
) -> bool {
    &&& forall|i: int|
        0 <= i < adds.len() ==> (#[trigger] adds[i] matches SyncActionView::AddService(c) && (
        lb.services@.contains_key(c.listen_port) && !has_port(current, c.listen_port) && c
            == desired_service(lb, c.listen_port)))
    &&& forall|i: int, j: int|
        0 <= i < j < adds.len() ==> #[trigger] adds[i] != #[trigger] adds[j]
    &&& forall|p: i32|
        #[trigger] lb.services@.contains_key(p) && !has_port(current, p) ==> adds.contains(
            SyncActionView::AddService(desired_service(lb, p)),
        )
}

/// Remove, in order, every current target that is not wanted.
pub open spec fn target_removals(current: Seq<Seq<char>>, wanted: Seq<Seq<char>>) -> Seq<
    SyncActionView,
>
    decreases current.len(),
{
    if current.len() == 0 {
        Seq::empty()
    } else {
        target_removals(current.drop_last(), wanted) + if wanted.contains(current.last()) {
            Seq::empty()
        } else {
            seq![SyncActionView::RemoveTarget(current.last())]
        }
    }
}

/// Add, in order and once each, every wanted target that is not current.
pub open spec fn target_additions(wanted: Seq<Seq<char>>, current: Seq<Seq<char>>) -> Seq<
    SyncActionView,
>
    decreases wanted.len(),
{
    if wanted.len() == 0 {
        Seq::empty()
    } else {
        let t = wanted.last();
        target_additions(wanted.drop_last(), current) + if current.contains(t)
            || wanted.drop_last().contains(t) {
            Seq::empty()
        } else {
            seq![SyncActionView::AddTarget(t)]
        }
    }
}

/// The calls before the listener additions: networks, algorithm, type, and
/// the changes to current listeners.
pub open spec fn plan_head(lb: LoadBalancer, current: CurrentBalancer, network: Option<i64>) -> Seq<
    SyncActionView,
> {
    network_detaches(current.networks@, network) + network_attach(
        current.networks@,
        network,
        opt_view(lb.private_ip),
    ) + algorithm_change(current.algorithm, lb.algorithm) + type_change(
        current.balancer_type@,
        lb.balancer_type@,
    ) + service_changes(current.services@, lb)
}

/// The calls after the listener additions: the target changes.
pub open spec fn plan_tail(lb: LoadBalancer, current: CurrentBalancer) -> Seq<SyncActionView> {
    target_removals(string_views(current.targets@), string_views(lb.targets@)) + target_additions(
        string_views(lb.targets@),
        string_views(current.targets@),
    )
}

/// Whether `plan` is the plan for bringing `current` in line with `lb` and
/// the wanted network: the head, the listener additions in some order, the
/// tail.
pub open spec fn is_sync_plan(
    plan: Seq<SyncActionView>,
    lb: LoadBalancer,
    current: CurrentBalancer,
    network: Option<i64>,
) -> bool {
    let head = plan_head(lb, current, network);
    let tail = plan_tail(lb, current);
    &&& plan.len() >= head.len() + tail.len()
    &&& plan.take(head.len() as int) == head
    &&& plan.skip(plan.len() - tail.len()) == tail
    &&& additions_exact(
        plan.subrange(head.len() as int, plan.len() - tail.len()),
        lb,
        current.services@,
    )
}

/// The pairs of a map of ports, in the order in which it is walked.
pub(crate) fn port_pairs(m: &HashMap<i32, i32>) -> (r: Vec<(i32, i32)>)
    ensures
        forall|i: int|
            0 <= i < r@.len() ==> m@.contains_key(#[trigger] r@[i].0) && m@[r@[i].0] == r@[i].1,
        forall|k: i32|
            #[trigger] m@.contains_key(k) ==> exists|i: int| 0 <= i < r@.len() && r@[i].0 == k,
        forall|i: int, j: int| 0 <= i < j < r@.len() ==> #[trigger] r@[i].0 != #[trigger] r@[j].0,
{
    broadcast use vstd::std_specs::hash::group_hash_axioms;

    let ghost s = spec_hash_map_iter(m).remaining();
    let mut r: Vec<(i32, i32)> = Vec::new();
    for (k, v) in it: m.iter()
        invariant
            it.seq() == s,
            r@.len() == it.index(),
            forall|i: int| 0 <= i < it.index() ==> r@[i] == (*s[i].0, *s[i].1),
    {
        r.push((*k, *v));
    }
    assert(r@.len() == s.len());
    assert forall|k: i32| #[trigger] m@.contains_key(k) implies exists|i: int|
        0 <= i < r@.len() && r@[i].0 == k by {
        assert(s.contains((&k, &m@[k])));
        let i = choose|i: int| 0 <= i < s.len() && s[i] == (&k, &m@[k]);
        assert(r@[i].0 == k);
    }
    assert forall|i: int, j: int| 0 <= i < j < r@.len() implies #[trigger] r@[i].0
        != #[trigger] r@[j].0 by {
        if r@[i].0 == r@[j].0 {
            assert(r@[i] == (*s[i].0, *s[i].1));
            assert(r@[j] == (*s[j].0, *s[j].1));
            assert(m@.contains_key(*s[i].0) && m@[*s[i].0] == *s[i].1);
            assert(m@.contains_key(*s[j].0) && m@[*s[j].0] == *s[j].1);
            assert(r@[i] == r@[j]);
            assert(s[i] == s[j]);
            assert(s.no_duplicates());
        }
    }
    r
}

/// Whether some listener uses `port`.
fn uses_port(services: &Vec<ServiceConfig>, port: i32) -> (r: bool)
    ensures
        r == has_port(services@, port),
{
    let n = services.len();
    for i in 0..n
        invariant
            n == services@.len(),
            forall|j: int| 0 <= j < i ==> #[trigger] services@[j].listen_port != port,
    {
        if services[i].listen_port == port {
            return true;
        }
    }
    false
}

/// Whether `id` is among `ids`.
fn has_network(ids: &Vec<i64>, id: i64) -> (r: bool)
    ensures
        r == ids@.contains(id),
{
    let n = ids.len();
    for i in 0..n
        invariant
            n == ids@.len(),
            forall|j: int| 0 <= j < i ==> #[trigger] ids@[j] != id,
    {
        if ids[i] == id {
            assert(ids@[i as int] == id);
            return true;
        }
    }
    false
}

/// Whether `text` is among the first `end` strings.
fn has_string(strings: &Vec<String>, end: usize, text: &String) -> (r: bool)
    requires
        end <= strings@.len(),
    ensures
        r == string_views(strings@).take(end as int).contains(text@),
{
    let ghost views = string_views(strings@).take(end as int);
    for i in 0..end
        invariant
            end <= strings@.len(),
            views == string_views(strings@).take(end as int),
            forall|j: int| 0 <= j < i ==> #[trigger] views[j] != text@,
    {
        if strings[i] == *text {
            assert(views[i as int] == text@);
            return true;
        }
    }
    false
}

/// Plans the calls that bring the balancer `current` in line with `lb` and
/// the network `network` (the id of the balancer's network, if it has
/// one): detach other networks and attach the wanted one with the wanted
/// private address; change the algorithm and the type where they differ;
/// delete listeners on unwanted ports and update those that differ; add
/// the missing listeners; remove unwanted targets and add missing ones,
/// each once.
pub fn plan_sync(lb: &LoadBalancer, current: &CurrentBalancer, network: Option<i64>) -> (r: Vec<
    SyncAction,
>)
    ensures
        is_sync_plan(action_views(r@), *lb, *current, network),
        apply_actions(current_state(*current), action_views(r@)) == desired_state(*lb, network),
        forall|i: int|
            0 <= i < r@.len() ==> match #[trigger] action_views(r@)[i] {
                SyncActionView::AddService(c) => carries_settings(c, *lb),
                SyncActionView::UpdateService(c) => carries_settings(c, *lb),
                _ => true,
            },
        forall|i: int| 0 <= i < r@.len() ==> call_fits(#[trigger] action_views(r@)[i], *lb, network),
{
    broadcast use vstd::std_specs::hash::group_hash_axioms;

    let mut plan: Vec<SyncAction> = Vec::new();
    let ghost ip_view = opt_view(lb.private_ip);
    assert(action_views(plan@) =~= Seq::<SyncActionView>::empty());

    let n = current.networks.len();
    for i in 0..n
        invariant
            n == current.networks@.len(),
            action_views(plan@) == network_detaches(current.networks@.take(i as int), network),
    {
        let id = current.networks[i];
        let ghost before = action_views(plan@);
        assert(current.networks@.take(i + 1).drop_last() =~= current.networks@.take(i as int));
        assert(current.networks@.take(i + 1).last() == id);
        if network != Some(id) {
            plan.push(SyncAction::DetachNetwork(id));
        }
        assert(action_views(plan@) =~= network_detaches(current.networks@.take(i + 1), network));
    }
    assert(current.networks@.take(n as int) =~= current.networks@);

    let ghost before = action_views(plan@);
    if let Some(id) = network {
        if !has_network(&current.networks, id) {
            let ip = match &lb.private_ip {
                Some(ip) => Some(ip.clone()),
                None => None,
            };
            plan.push(SyncAction::AttachNetwork { network: id, ip });
        }
    }
    assert(action_views(plan@) =~= before + network_attach(current.networks@, network, ip_view));

    let ghost before = action_views(plan@);
    if current.algorithm != lb.algorithm {
        plan.push(SyncAction::ChangeAlgorithm(lb.algorithm));
    }
    assert(action_views(plan@) =~= before + algorithm_change(current.algorithm, lb.algorithm));

    let ghost before = action_views(plan@);
    if !(current.balancer_type == lb.balancer_type) {
        plan.push(SyncAction::ChangeType(lb.balancer_type.clone()));
    }
    assert(action_views(plan@) =~= before + type_change(
        current.balancer_type@,
        lb.balancer_type@,
    ));

    let ghost start = action_views(plan@);
    let n = current.services.len();
    for i in 0..n
        invariant
            n == current.services@.len(),
            action_views(plan@) == start + service_changes(current.services@.take(i as int), *lb),
    {
        let s = current.services[i];
        let ghost before = action_views(plan@);
        assert(current.services@.take(i + 1).drop_last() =~= current.services@.take(i as int));
        assert(current.services@.take(i + 1).last() == s);
        match lb.services.get(&s.listen_port) {
            None => {
                plan.push(SyncAction::DeleteService(s.listen_port));
                assert(action_views(plan@) =~= before.push(SyncActionView::DeleteService(s.listen_port)));
            },
            Some(destination) => {
                let wanted = ServiceConfig {
                    listen_port: s.listen_port,
                    destination_port: *destination,
                    proxy_mode: lb.proxy_mode,
                    check_interval: lb.check_interval,
                    timeout: lb.timeout,
                    retries: lb.retries,
                };
                assert(wanted == desired_service(*lb, s.listen_port));
                if s != wanted {
                    plan.push(SyncAction::UpdateService(wanted));
                    assert(action_views(plan@) =~= before.push(SyncActionView::UpdateService(wanted)));
                } else {
                    assert(action_views(plan@) =~= before);
                }
            },
        }
        assert(action_views(plan@) =~= start + service_changes(
            current.services@.take(i + 1),
            *lb,
        ));
    }
    assert(current.services@.take(n as int) =~= current.services@);
    let ghost head = action_views(plan@);
    assert(head == plan_head(*lb, *current, network));

    let wanted_ports = port_pairs(&lb.services);
    let m = wanted_ports.len();
    for i in 0..m
        invariant
            m == wanted_ports@.len(),
            forall|k: int|
                0 <= k < wanted_ports@.len() ==> lb.services@.contains_key(
                    #[trigger] wanted_ports@[k].0,
                ) && lb.services@[wanted_ports@[k].0] == wanted_ports@[k].1,
            forall|a: int, b: int|
                0 <= a < b < wanted_ports@.len() ==> #[trigger] wanted_ports@[a].0
                    != #[trigger] wanted_ports@[b].0,
            action_views(plan@).len() >= head.len(),
            action_views(plan@).take(head.len() as int) == head,
            forall|j: int|
                head.len() <= j < action_views(plan@).len() ==> (
                #[trigger] action_views(plan@)[j] matches SyncActionView::AddService(c) && (
                lb.services@.contains_key(c.listen_port) && !has_port(
                    current.services@,
                    c.listen_port,
                ) && c == desired_service(*lb, c.listen_port) && exists|k: int|
                    0 <= k < i && wanted_ports@[k].0 == c.listen_port)),
            forall|a: int, b: int|
                head.len() <= a < b < action_views(plan@).len() ==> #[trigger] action_views(
                    plan@,
                )[a] != #[trigger] action_views(plan@)[b],
            forall|k: int|
                0 <= k < i && !has_port(current.services@, #[trigger] wanted_ports@[k].0)
                    ==> action_views(plan@).skip(head.len() as int).contains(
                    SyncActionView::AddService(desired_service(*lb, wanted_ports@[k].0)),
                ),
    {
        let (port, destination) = wanted_ports[i];
        let ghost before = action_views(plan@);
        if !uses_port(&current.services, port) {
            let wanted = ServiceConfig {
                listen_port: port,
                destination_port: destination,
                proxy_mode: lb.proxy_mode,
                check_interval: lb.check_interval,
                timeout: lb.timeout,
                retries: lb.retries,
            };
            plan.push(SyncAction::AddService(wanted));
            proof {
                let after = action_views(plan@);
                assert(after =~= before.push(SyncActionView::AddService(wanted)));
                assert(after.take(head.len() as int) =~= before.take(head.len() as int));
                assert forall|j: int| head.len() <= j < after.len() implies (
                #[trigger] after[j] matches SyncActionView::AddService(c) && (
                lb.services@.contains_key(c.listen_port) && !has_port(
                    current.services@,
                    c.listen_port,
                ) && c == desired_service(*lb, c.listen_port) && exists|k: int|
                    0 <= k < i + 1 && wanted_ports@[k].0 == c.listen_port)) by {
                    if j < before.len() {
                        assert(after[j] == before[j]);
                    } else {
                        assert(wanted_ports@[i as int].0 == port);
                    }
                }
                assert forall|a: int, b: int| head.len() <= a < b < after.len() implies #[trigger] after[a]
                    != #[trigger] after[b] by {
                    if b == after.len() - 1 {
                        assert(after[a] == before[a]);
                        if before[a] == after[b] {
                            let k = choose|k: int|
                                0 <= k < i && wanted_ports@[k].0 == port;
                            assert(wanted_ports@[k].0 != wanted_ports@[i as int].0);
                        }
                    } else {
                        assert(after[a] == before[a] && after[b] == before[b]);
                    }
                }
                assert forall|k: int|
                    0 <= k < i + 1 && !has_port(current.services@, #[trigger] wanted_ports@[k].0)
                        implies after.skip(head.len() as int).contains(
                    SyncActionView::AddService(desired_service(*lb, wanted_ports@[k].0)),
                ) by {
                    if k < i {
                        let x = choose|x: int|
                            0 <= x < before.skip(head.len() as int).len() && before.skip(
                                head.len() as int,
                            )[x] == SyncActionView::AddService(
                                desired_service(*lb, wanted_ports@[k].0),
                            );
                        assert(after.skip(head.len() as int)[x] == before.skip(
                            head.len() as int,
                        )[x]);
                    } else {
                        assert(after.skip(head.len() as int)[after.len() - 1 - head.len()]
                            == SyncActionView::AddService(wanted));
                    }
                }
            }
        } else {
            proof {
                let after = action_views(plan@);
                assert(after =~= before);
                assert forall|j: int| head.len() <= j < after.len() implies (
                #[trigger] after[j] matches SyncActionView::AddService(c) && (
                lb.services@.contains_key(c.listen_port) && !has_port(
                    current.services@,
                    c.listen_port,
                ) && c == desired_service(*lb, c.listen_port) && exists|k: int|
                    0 <= k < i + 1 && wanted_ports@[k].0 == c.listen_port)) by {
                    if let SyncActionView::AddService(c) = after[j] {
                        let k = choose|k: int| 0 <= k < i && wanted_ports@[k].0 == c.listen_port;
                    }
                }
            }
        }
    }
    let ghost with_adds = action_views(plan@);
    proof {
        let adds = with_adds.skip(head.len() as int);
        assert forall|p: i32|
            #[trigger] lb.services@.contains_key(p) && !has_port(current.services@, p)
                implies adds.contains(SyncActionView::AddService(desired_service(*lb, p))) by {
            let k = choose|k: int| 0 <= k < wanted_ports@.len() && wanted_ports@[k].0 == p;
            assert(!has_port(current.services@, wanted_ports@[k].0));
        }
        assert forall|a: int, b: int| 0 <= a < b < adds.len() implies #[trigger] adds[a]
            != #[trigger] adds[b] by {
            assert(adds[a] == with_adds[a + head.len()]);
            assert(adds[b] == with_adds[b + head.len()]);
        }
        assert forall|j: int| 0 <= j < adds.len() implies (#[trigger] adds[j] matches SyncActionView::AddService(c) && (
        lb.services@.contains_key(c.listen_port) && !has_port(current.services@, c.listen_port)
            && c == desired_service(*lb, c.listen_port))) by {
            assert(adds[j] == with_adds[j + head.len()]);
        }
        assert(additions_exact(adds, *lb, current.services@));
    }

    let ghost wanted_targets = string_views(lb.targets@);
    let ghost current_targets = string_views(current.targets@);
    let n = current.targets.len();
    for i in 0..n
        invariant
            n == current.targets@.len(),
            wanted_targets == string_views(lb.targets@),
            current_targets == string_views(current.targets@),
            action_views(plan@) == with_adds + target_removals(
                current_targets.take(i as int),
                wanted_targets,
            ),
    {
        let t = &current.targets[i];
        assert(current_targets.take(i + 1).drop_last() =~= current_targets.take(i as int));
        assert(current_targets.take(i + 1).last() == t@);
        assert(wanted_targets.take(lb.targets@.len() as int) =~= wanted_targets);
        let ghost before = action_views(plan@);
        if !has_string(&lb.targets, lb.targets.len(), t) {
            plan.push(SyncAction::RemoveTarget(t.clone()));
            assert(action_views(plan@) =~= before.push(SyncActionView::RemoveTarget(t@)));
        }
        assert(action_views(plan@) =~= with_adds + target_removals(
            current_targets.take(i + 1),
            wanted_targets,
        ));
    }
    assert(current_targets.take(n as int) =~= current_targets);
    let ghost with_removals = action_views(plan@);

    let n = lb.targets.len();
    for i in 0..n
        invariant
            n == lb.targets@.len(),
            wanted_targets == string_views(lb.targets@),
            current_targets == string_views(current.targets@),
            action_views(plan@) == with_removals + target_additions(
                wanted_targets.take(i as int),
                current_targets,
            ),
    {
        let t = &lb.targets[i];
        let ghost before = action_views(plan@);
        assert(wanted_targets.take(i + 1).drop_last() =~= wanted_targets.take(i as int));
        assert(wanted_targets.take(i + 1).last() == t@);
        assert(current_targets.take(current.targets@.len() as int) =~= current_targets);
        if !has_string(&current.targets, current.targets.len(), t) && !has_string(
            &lb.targets,
            i,
            t,
        ) {
            plan.push(SyncAction::AddTarget(t.clone()));
            assert(action_views(plan@) =~= before.push(SyncActionView::AddTarget(t@)));
        }
        assert(action_views(plan@) =~= with_removals + target_additions(
            wanted_targets.take(i + 1),
            current_targets,
        ));
    }
    assert(wanted_targets.take(n as int) =~= wanted_targets);
    proof {
        let v = action_views(plan@);
        let tail = plan_tail(*lb, *current);
        assert(v =~= with_adds + tail);
        assert(v.take(head.len() as int) =~= head);
        assert(v.skip(v.len() - tail.len()) =~= tail);
        assert(v.subrange(head.len() as int, v.len() - tail.len()) =~= with_adds.skip(
            head.len() as int,
        ));
        lemma_sync_reaches_desired(v, *lb, *current, network);
        lemma_sync_listeners_carry_settings(v, *lb, *current, network);
        lemma_sync_calls_fit(v, *lb, *current, network);
    }
    plan
}

/// The state of a balancer as far as the plan changes it.
pub struct BalancerState {
    pub algorithm: LBAlgorithm,
    pub balancer_type: Seq<char>,
    pub services: Map<i32, ServiceConfig>,
    pub targets: Set<Seq<char>>,
    pub networks: Set<i64>,
}

/// The state after one call.
pub open spec fn apply_action(s: BalancerState, a: SyncActionView) -> BalancerState {
    match a {
        SyncActionView::DetachNetwork(n) => BalancerState { networks: s.networks.remove(n), ..s },
        SyncActionView::AttachNetwork { network, ip } => BalancerState {
            networks: s.networks.insert(network),
            ..s
        },
        SyncActionView::ChangeAlgorithm(x) => BalancerState { algorithm: x, ..s },
        SyncActionView::ChangeType(t) => BalancerState { balancer_type: t, ..s },
        SyncActionView::DeleteService(p) => BalancerState { services: s.services.remove(p), ..s },
        SyncActionView::UpdateService(c) => BalancerState {
            services: s.services.insert(c.listen_port, c),
            ..s
        },
        SyncActionView::AddService(c) => BalancerState {
            services: s.services.insert(c.listen_port, c),
            ..s
        },
        SyncActionView::RemoveTarget(t) => BalancerState { targets: s.targets.remove(t), ..s },
        SyncActionView::AddTarget(t) => BalancerState { targets: s.targets.insert(t), ..s },
    }
}

/// The state after a list of calls, made in order.
pub open spec fn apply_actions(s: BalancerState, actions: Seq<SyncActionView>) -> BalancerState
    decreases actions.len(),
{
    if actions.len() == 0 {
        s
    } else {
        apply_action(apply_actions(s, actions.drop_last()), actions.last())
    }
}

/// The listeners of a list, by port; a later listener on a port replaces
/// an earlier one.
pub open spec fn services_map(services: Seq<ServiceConfig>) -> Map<i32, ServiceConfig>
    decreases services.len(),
{
    if services.len() == 0 {
        Map::empty()
    } else {
        services_map(services.drop_last()).insert(services.last().listen_port, services.last())
    }
}

/// The state that Hetzner Cloud reports.
pub open spec fn current_state(current: CurrentBalancer) -> BalancerState {
    BalancerState {
        algorithm: current.algorithm,
        balancer_type: current.balancer_type@,
        services: services_map(current.services@),
        targets: string_views(current.targets@).to_set(),
        networks: current.networks@.to_set(),
    }
}

/// The state that the balancer `lb` and the network `network` describe.
pub open spec fn desired_state(lb: LoadBalancer, network: Option<i64>) -> BalancerState {
    BalancerState {
        algorithm: lb.algorithm,
        balancer_type: lb.balancer_type@,
        services: Map::new(
            |p: i32| lb.services@.contains_key(p),
            |p: i32| desired_service(lb, p),
        ),
        targets: string_views(lb.targets@).to_set(),
        networks: match network {
            Some(n) => Set::empty().insert(n),
            None => Set::empty(),
        },
    }
}

/// Which part of the state a call changes: 0 networks, 1 algorithm, 2 type,
/// 3 listeners, 4 targets.
pub open spec fn action_part(a: SyncActionView) -> int {
    match a {
        SyncActionView::DetachNetwork(_) => 0,
        SyncActionView::AttachNetwork { .. } => 0,
        SyncActionView::ChangeAlgorithm(_) => 1,
        SyncActionView::ChangeType(_) => 2,
        SyncActionView::DeleteService(_) => 3,
        SyncActionView::UpdateService(_) => 3,
        SyncActionView::AddService(_) => 3,
        SyncActionView::RemoveTarget(_) => 4,
        SyncActionView::AddTarget(_) => 4,
    }
}

/// Whether every call of the list changes only the given part.
pub open spec fn only_part(actions: Seq<SyncActionView>, part: int) -> bool {
    forall|i: int| 0 <= i < actions.len() ==> action_part(#[trigger] actions[i]) == part
}

/// Calls that change one part leave the others as they are.
proof fn lemma_other_parts_kept(s: BalancerState, actions: Seq<SyncActionView>, part: int)
    requires
        only_part(actions, part),
    ensures
        part != 0 ==> apply_actions(s, actions).networks == s.networks,
        part != 1 ==> apply_actions(s, actions).algorithm == s.algorithm,
        part != 2 ==> apply_actions(s, actions).balancer_type == s.balancer_type,
        part != 3 ==> apply_actions(s, actions).services == s.services,
        part != 4 ==> apply_actions(s, actions).targets == s.targets,
    decreases actions.len(),
{
    if actions.len() > 0 {
        assert(only_part(actions.drop_last(), part)) by {
            assert forall|i: int| 0 <= i < actions.drop_last().len() implies action_part(
                #[trigger] actions.drop_last()[i],
            ) == part by {
                assert(actions.drop_last()[i] == actions[i]);
            }
        }
        lemma_other_parts_kept(s, actions.drop_last(), part);
        assert(action_part(actions[actions.len() - 1]) == part);
    }
}

/// Making a single call.
proof fn lemma_apply_single(s: BalancerState, a: SyncActionView)
    ensures
        apply_actions(s, seq![a]) == apply_action(s, a),
{
    let e = seq![a].drop_last();
    assert(e =~= Seq::<SyncActionView>::empty());
    assert(apply_actions(s, e) == s);
    assert(seq![a].last() == a);
}

/// Making two lists of calls one after the other is making their
/// concatenation.
proof fn lemma_apply_concat(s: BalancerState, a: Seq<SyncActionView>, b: Seq<SyncActionView>)
    ensures
        apply_actions(s, a + b) == apply_actions(apply_actions(s, a), b),
    decreases b.len(),
{
    if b.len() == 0 {
        assert(a + b =~= a);
    } else {
        lemma_apply_concat(s, a, b.drop_last());
        assert((a + b).drop_last() =~= a + b.drop_last());
        assert((a + b).last() == b.last());
    }
}

/// Concatenating lists that change one part changes that part only.
proof fn lemma_only_part_concat(a: Seq<SyncActionView>, b: Seq<SyncActionView>, part: int)
    requires
        only_part(a, part),
        only_part(b, part),
    ensures
        only_part(a + b, part),
{
    assert forall|i: int| 0 <= i < (a + b).len() implies action_part(#[trigger] (a + b)[i])
        == part by {
        if i < a.len() {
            assert((a + b)[i] == a[i]);
        } else {
            assert((a + b)[i] == b[i - a.len()]);
        }
    }
}

/// Detaching leaves exactly the current networks that are wanted.
proof fn lemma_detaches(s: BalancerState, current: Seq<i64>, network: Option<i64>)
    ensures
        only_part(network_detaches(current, network), 0),
        forall|x: i64|
            #[trigger] apply_actions(s, network_detaches(current, network)).networks.contains(x)
                <==> s.networks.contains(x) && !(current.contains(x) && network != Some(x)),
    decreases current.len(),
{
    if current.len() > 0 {
        let pre = current.drop_last();
        let l = current.last();
        lemma_detaches(s, pre, network);
        let step: Seq<SyncActionView> = if network == Some(l) {
            Seq::empty()
        } else {
            seq![SyncActionView::DetachNetwork(l)]
        };
        assert(network_detaches(current, network) == network_detaches(pre, network) + step);
        lemma_only_part_concat(network_detaches(pre, network), step, 0);
        lemma_apply_concat(s, network_detaches(pre, network), step);
        let mid = apply_actions(s, network_detaches(pre, network));
        if network != Some(l) {
            lemma_apply_single(mid, SyncActionView::DetachNetwork(l));
        } else {
            assert(apply_actions(mid, step) == mid);
        }
        assert forall|x: i64|
            #[trigger] apply_actions(s, network_detaches(current, network)).networks.contains(x)
                <==> s.networks.contains(x) && !(current.contains(x) && network != Some(x)) by {
            if current.contains(x) && x != l {
                let k = choose|k: int| 0 <= k < current.len() && current[k] == x;
                assert(pre[k] == x);
            }
            if pre.contains(x) {
                let k = choose|k: int| 0 <= k < pre.len() && pre[k] == x;
                assert(current[k] == x);
            }
            assert(current[current.len() - 1] == l);
        }
    }
}

/// The listeners of a list, by port: a port is there if some listener uses
/// it, and then it holds one of the listeners on it.
proof fn lemma_services_map(services: Seq<ServiceConfig>)
    ensures
        forall|p: i32| #[trigger] services_map(services).contains_key(p) <==> has_port(services, p),
        forall|p: i32|
            #[trigger] services_map(services).contains_key(p) ==> exists|i: int|
                0 <= i < services.len() && services[i].listen_port == p && services_map(
                    services,
                )[p] == services[i],
    decreases services.len(),
{
    if services.len() > 0 {
        let pre = services.drop_last();
        lemma_services_map(pre);
        let last = services.len() - 1;
        assert(services[last] == services.last());
        assert(services_map(services) == services_map(pre).insert(
            services.last().listen_port,
            services.last(),
        ));
        assert forall|p: i32| #[trigger] services_map(services).contains_key(p) <==> has_port(
            services,
            p,
        ) by {
            assert(services_map(pre).contains_key(p) <==> has_port(pre, p));
            if p == services.last().listen_port {
                assert(services[last].listen_port == p);
            }
            if has_port(services, p) && p != services.last().listen_port {
                let i = choose|i: int| 0 <= i < services.len() && #[trigger] services[i].listen_port == p;
                assert(pre[i] == services[i]);
            }
            if has_port(pre, p) {
                let i = choose|i: int| 0 <= i < pre.len() && #[trigger] pre[i].listen_port == p;
                assert(services[i] == pre[i]);
            }
        }
        assert forall|p: i32| #[trigger] services_map(services).contains_key(p) implies exists|i: int|
            0 <= i < services.len() && services[i].listen_port == p && services_map(services)[p]
                == services[i] by {
            if p != services.last().listen_port {
                let i = choose|i: int|
                    0 <= i < pre.len() && pre[i].listen_port == p && services_map(pre)[p]
                        == pre[i];
                assert(services[i] == pre[i]);
            }
        }
    }
}

/// Whether `after` holds on `port` just what `before` holds.
pub open spec fn keeps_port(
    after: Map<i32, ServiceConfig>,
    before: Map<i32, ServiceConfig>,
    port: i32,
) -> bool {
    &&& after.contains_key(port) == before.contains_key(port)
    &&& before.contains_key(port) ==> after[port] == before[port]
}

/// What the changes to current listeners do to a map of listeners: ports
/// that no current listener uses are kept; unwanted ports are removed;
/// wanted ports get the wanted listener where some current listener on
/// them differs from it, and are kept otherwise.
proof fn lemma_service_changes(s: BalancerState, current: Seq<ServiceConfig>, lb: LoadBalancer)
    ensures
        only_part(service_changes(current, lb), 3),
        forall|p: i32|
            !has_port(current, p) ==> #[trigger] keeps_port(
                apply_actions(s, service_changes(current, lb)).services,
                s.services,
                p,
            ),
        forall|p: i32|
            has_port(current, p) && !lb.services@.contains_key(p) ==> !#[trigger] apply_actions(
                s,
                service_changes(current, lb),
            ).services.contains_key(p),
        forall|p: i32|
            has_port(current, p) && lb.services@.contains_key(p) && port_differs(current, lb, p)
                ==> #[trigger] apply_actions(
                s,
                service_changes(current, lb),
            ).services.contains_key(p) && apply_actions(s, service_changes(current, lb)).services[p]
                == desired_service(lb, p),
        forall|p: i32|
            has_port(current, p) && lb.services@.contains_key(p) && (forall|i: int|
                0 <= i < current.len() && current[i].listen_port == p ==> current[i]
                    == desired_service(lb, p)) ==> #[trigger] keeps_port(
                apply_actions(s, service_changes(current, lb)).services,
                s.services,
                p,
            ),
    decreases current.len(),
{
    if current.len() > 0 {
        let pre = current.drop_last();
        let x = current.last();
        let last = current.len() - 1;
        assert(current[last] == x);
        lemma_service_changes(s, pre, lb);
        let step: Seq<SyncActionView> = if !lb.services@.contains_key(x.listen_port) {
            seq![SyncActionView::DeleteService(x.listen_port)]
        } else if x != desired_service(lb, x.listen_port) {
            seq![SyncActionView::UpdateService(desired_service(lb, x.listen_port))]
        } else {
            Seq::empty()
        };
        assert(service_changes(current, lb) == service_changes(pre, lb) + step);
        lemma_only_part_concat(service_changes(pre, lb), step, 3);
        lemma_apply_concat(s, service_changes(pre, lb), step);
        let mid = apply_actions(s, service_changes(pre, lb));
        let end = apply_actions(s, service_changes(current, lb));
        if step.len() == 1 {
            assert(step =~= seq![step[0]]);
            lemma_apply_single(mid, step[0]);
            assert(end == apply_action(mid, step[0]));
        } else {
            assert(end == mid);
        }
        assert forall|p: i32| has_port(pre, p) implies has_port(current, p) by {
            let i = choose|i: int| 0 <= i < pre.len() && #[trigger] pre[i].listen_port == p;
            assert(current[i] == pre[i]);
        }
        assert(has_port(current, x.listen_port)) by {
            assert(current[last].listen_port == x.listen_port);
        }
        assert forall|q: i32| q != x.listen_port implies (#[trigger] end.services.contains_key(q)
            == mid.services.contains_key(q) && (mid.services.contains_key(q) ==> end.services[q]
            == mid.services[q])) by {}
        assert forall|p: i32| !has_port(current, p) implies #[trigger] keeps_port(
            end.services,
            s.services,
            p,
        ) by {
            assert(!has_port(pre, p));
            assert(keeps_port(mid.services, s.services, p));
        }
        assert forall|p: i32| has_port(current, p) && p != x.listen_port implies has_port(pre, p) by {
            let i = choose|i: int| 0 <= i < current.len() && #[trigger] current[i].listen_port == p;
            assert(pre[i] == current[i]);
        }
        assert forall|p: i32|
            has_port(current, p) && lb.services@.contains_key(p) && port_differs(current, lb, p)
                implies #[trigger] end.services.contains_key(p)
            && end.services[p] == desired_service(lb, p) by {
            let i = choose|i: int|
                0 <= i < current.len() && current[i].listen_port == p && current[i]
                    != desired_service(lb, p);
            if i < last {
                assert(pre[i] == current[i]);
                assert(has_port(pre, p)) by {
                    assert(pre[i].listen_port == p);
                }
                assert(0 <= i < pre.len() && pre[i].listen_port == p && pre[i] != desired_service(
                    lb,
                    p,
                ));
                assert(port_differs(pre, lb, p));
                assert(mid.services.contains_key(p) && mid.services[p] == desired_service(lb, p));
            }
            if p == x.listen_port {
                if x != desired_service(lb, p) {
                    assert(step == seq![SyncActionView::UpdateService(desired_service(lb, p))]);
                    assert(end.services == mid.services.insert(p, desired_service(lb, p)));
                } else {
                    assert(end == mid);
                }
            } else {
                assert(i < last);
            }
        }
        assert forall|p: i32|
            has_port(current, p) && lb.services@.contains_key(p) && (forall|i: int|
                0 <= i < current.len() && current[i].listen_port == p ==> current[i]
                    == desired_service(lb, p)) implies #[trigger] keeps_port(
            end.services,
            s.services,
            p,
        ) by {
            assert forall|i: int|
                0 <= i < pre.len() && pre[i].listen_port == p implies pre[i] == desired_service(
                lb,
                p,
            ) by {
                assert(current[i] == pre[i]);
            }
            if p == x.listen_port {
                assert(x == desired_service(lb, p));
                assert(end == mid);
            }
            assert(keeps_port(mid.services, s.services, p));
        }
    } else {
        assert(service_changes(current, lb) =~= Seq::<SyncActionView>::empty());
        assert(apply_actions(s, service_changes(current, lb)) == s);
    }
}

/// Adding listeners that are all wanted ones: a port is there afterwards if
/// it was before or a listener on it was added, and an added port holds
/// its wanted listener.
proof fn lemma_service_additions(s: BalancerState, adds: Seq<SyncActionView>, lb: LoadBalancer)
    requires
        forall|i: int|
            0 <= i < adds.len() ==> (#[trigger] adds[i] matches SyncActionView::AddService(c)
                && c == desired_service(lb, c.listen_port)),
    ensures
        only_part(adds, 3),
        forall|p: i32|
            #[trigger] apply_actions(s, adds).services.contains_key(p) <==> (
            s.services.contains_key(p) || adds.contains(
                SyncActionView::AddService(desired_service(lb, p)),
            )),
        forall|p: i32|
            adds.contains(SyncActionView::AddService(desired_service(lb, p)))
                ==> #[trigger] apply_actions(s, adds).services[p] == desired_service(lb, p),
        forall|p: i32|
            !adds.contains(SyncActionView::AddService(desired_service(lb, p)))
                && s.services.contains_key(p) ==> #[trigger] apply_actions(s, adds).services[p]
                == s.services[p],
    decreases adds.len(),
{
    assert forall|i: int| 0 <= i < adds.len() implies action_part(#[trigger] adds[i]) == 3 by {
        assert(adds[i] matches SyncActionView::AddService(_));
    }
    if adds.len() > 0 {
        let pre = adds.drop_last();
        assert forall|i: int| 0 <= i < pre.len() implies (#[trigger] pre[i] matches SyncActionView::AddService(c)
            && c == desired_service(lb, c.listen_port)) by {
            assert(pre[i] == adds[i]);
        }
        lemma_service_additions(s, pre, lb);
        let last = adds.len() - 1;
        assert(adds[last] == adds.last());
        let c = adds.last()->AddService_0;
        assert(adds.last() == SyncActionView::AddService(desired_service(lb, c.listen_port)));
        assert forall|p: i32| adds.contains(SyncActionView::AddService(desired_service(lb, p)))
            <==> (pre.contains(SyncActionView::AddService(desired_service(lb, p)))
            || p == c.listen_port) by {
            if p == c.listen_port {
                assert(adds[last] == SyncActionView::AddService(desired_service(lb, p)));
            }
            if adds.contains(SyncActionView::AddService(desired_service(lb, p))) && p
                != c.listen_port {
                let k = choose|k: int|
                    0 <= k < adds.len() && adds[k] == SyncActionView::AddService(
                        desired_service(lb, p),
                    );
                assert(k != last);
                assert(pre[k] == adds[k]);
            }
            if pre.contains(SyncActionView::AddService(desired_service(lb, p))) {
                let k = choose|k: int|
                    0 <= k < pre.len() && pre[k] == SyncActionView::AddService(
                        desired_service(lb, p),
                    );
                assert(adds[k] == pre[k]);
            }
        }
    }
}

/// Removing leaves exactly the targets that are not current or are wanted.
proof fn lemma_target_removals(s: BalancerState, current: Seq<Seq<char>>, wanted: Seq<Seq<char>>)
    ensures
        only_part(target_removals(current, wanted), 4),
        forall|t: Seq<char>|
            #[trigger] apply_actions(s, target_removals(current, wanted)).targets.contains(t)
                <==> s.targets.contains(t) && !(current.contains(t) && !wanted.contains(t)),
    decreases current.len(),
{
    if current.len() > 0 {
        let pre = current.drop_last();
        let l = current.last();
        lemma_target_removals(s, pre, wanted);
        let step: Seq<SyncActionView> = if wanted.contains(l) {
            Seq::empty()
        } else {
            seq![SyncActionView::RemoveTarget(l)]
        };
        assert(target_removals(current, wanted) == target_removals(pre, wanted) + step);
        lemma_only_part_concat(target_removals(pre, wanted), step, 4);
        lemma_apply_concat(s, target_removals(pre, wanted), step);
        let mid = apply_actions(s, target_removals(pre, wanted));
        if !wanted.contains(l) {
            lemma_apply_single(mid, SyncActionView::RemoveTarget(l));
        } else {
            assert(apply_actions(mid, step) == mid);
        }
        assert forall|t: Seq<char>|
            #[trigger] apply_actions(s, target_removals(current, wanted)).targets.contains(t)
                <==> s.targets.contains(t) && !(current.contains(t) && !wanted.contains(t)) by {
            if current.contains(t) && t != l {
                let k = choose|k: int| 0 <= k < current.len() && current[k] == t;
                assert(pre[k] == t);
            }
            if pre.contains(t) {
                let k = choose|k: int| 0 <= k < pre.len() && pre[k] == t;
                assert(current[k] == t);
            }
            assert(current[current.len() - 1] == l);
        }
    }
}

/// Adding brings in exactly the wanted targets that are not current.
proof fn lemma_target_additions(s: BalancerState, wanted: Seq<Seq<char>>, current: Seq<Seq<char>>)
    ensures
        only_part(target_additions(wanted, current), 4),
        forall|t: Seq<char>|
            #[trigger] apply_actions(s, target_additions(wanted, current)).targets.contains(t)
                <==> s.targets.contains(t) || (wanted.contains(t) && !current.contains(t)),
    decreases wanted.len(),
{
    if wanted.len() > 0 {
        let pre = wanted.drop_last();
        let l = wanted.last();
        lemma_target_additions(s, pre, current);
        let step: Seq<SyncActionView> = if current.contains(l) || pre.contains(l) {
            Seq::empty()
        } else {
            seq![SyncActionView::AddTarget(l)]
        };
        assert(target_additions(wanted, current) == target_additions(pre, current) + step);
        lemma_only_part_concat(target_additions(pre, current), step, 4);
        lemma_apply_concat(s, target_additions(pre, current), step);
        let mid = apply_actions(s, target_additions(pre, current));
        if step.len() == 1 {
            lemma_apply_single(mid, SyncActionView::AddTarget(l));
        } else {
            assert(apply_actions(mid, step) == mid);
        }
        assert forall|t: Seq<char>|
            #[trigger] apply_actions(s, target_additions(wanted, current)).targets.contains(t)
                <==> s.targets.contains(t) || (wanted.contains(t) && !current.contains(t)) by {
            if wanted.contains(t) && t != l {
                let k = choose|k: int| 0 <= k < wanted.len() && wanted[k] == t;
                assert(pre[k] == t);
            }
            if pre.contains(t) {
                let k = choose|k: int| 0 <= k < pre.len() && pre[k] == t;
                assert(wanted[k] == t);
            }
            assert(wanted[wanted.len() - 1] == l);
        }
    }
}

/// A list of at most one call that changes the given part changes only it.
proof fn lemma_short_only_part(a: Seq<SyncActionView>, part: int)
    requires
        a.len() <= 1,
        a.len() == 1 ==> action_part(a[0]) == part,
    ensures
        only_part(a, part),
{
}

/// Making the planned calls, in order, on the balancer that Hetzner Cloud
/// reports brings it to the desired state: the wanted network only, the
/// wanted algorithm and type, exactly the wanted listeners, and exactly
/// the wanted targets. This holds whatever order the listener additions
/// come in.
pub proof fn lemma_sync_reaches_desired(
    plan: Seq<SyncActionView>,
    lb: LoadBalancer,
    current: CurrentBalancer,
    network: Option<i64>,
)
    requires
        is_sync_plan(plan, lb, current, network),
    ensures
        apply_actions(current_state(current), plan) == desired_state(lb, network),
{
    let head = plan_head(lb, current, network);
    let tail = plan_tail(lb, current);
    let adds = plan.subrange(head.len() as int, plan.len() - tail.len());
    assert(plan =~= head + adds + tail);
    let nets = current.networks@;
    let d = network_detaches(nets, network);
    let at = network_attach(nets, network, opt_view(lb.private_ip));
    let al = algorithm_change(current.algorithm, lb.algorithm);
    let ty = type_change(current.balancer_type@, lb.balancer_type@);
    let sc = service_changes(current.services@, lb);
    let cur_t = string_views(current.targets@);
    let want_t = string_views(lb.targets@);
    let rm = target_removals(cur_t, want_t);
    let ad = target_additions(want_t, cur_t);
    assert(head == d + at + al + ty + sc);
    assert(tail == rm + ad);

    let s0 = current_state(current);
    lemma_apply_concat(s0, head + adds, tail);
    lemma_apply_concat(s0, head, adds);
    lemma_apply_concat(s0, d + at + al + ty, sc);
    lemma_apply_concat(s0, d + at + al, ty);
    lemma_apply_concat(s0, d + at, al);
    lemma_apply_concat(s0, d, at);
    let s1 = apply_actions(s0, d);
    let s2 = apply_actions(s1, at);
    let s3 = apply_actions(s2, al);
    let s4 = apply_actions(s3, ty);
    let s5 = apply_actions(s4, sc);
    let s6 = apply_actions(s5, adds);
    lemma_apply_concat(s6, rm, ad);
    let s7 = apply_actions(s6, rm);
    let s8 = apply_actions(s7, ad);
    assert(apply_actions(s0, plan) == s8);

    lemma_detaches(s0, nets, network);
    lemma_other_parts_kept(s0, d, 0);
    lemma_short_only_part(at, 0);
    lemma_other_parts_kept(s1, at, 0);
    lemma_short_only_part(al, 1);
    lemma_other_parts_kept(s2, al, 1);
    lemma_short_only_part(ty, 2);
    lemma_other_parts_kept(s3, ty, 2);
    lemma_service_changes(s4, current.services@, lb);
    lemma_other_parts_kept(s4, sc, 3);
    assert forall|i: int| 0 <= i < adds.len() implies (#[trigger] adds[i] matches SyncActionView::AddService(c)
        && c == desired_service(lb, c.listen_port)) by {}
    lemma_service_additions(s5, adds, lb);
    lemma_other_parts_kept(s5, adds, 3);
    lemma_target_removals(s6, cur_t, want_t);
    lemma_other_parts_kept(s6, rm, 4);
    lemma_target_additions(s7, want_t, cur_t);
    lemma_other_parts_kept(s7, ad, 4);
    lemma_services_map(current.services@);

    let want = desired_state(lb, network);

    // Networks.
    if at.len() == 1 {
        lemma_apply_single(s1, at[0]);
        assert(at =~= seq![at[0]]);
    } else {
        assert(at =~= Seq::<SyncActionView>::empty());
    }
    assert(s8.networks =~= want.networks) by {
        assert forall|x: i64| s8.networks.contains(x) <==> want.networks.contains(x) by {
            assert(s1.networks.contains(x) <==> nets.contains(x) && network == Some(x));
        }
    }

    // Algorithm and type.
    if al.len() == 1 {
        lemma_apply_single(s2, al[0]);
        assert(al =~= seq![al[0]]);
    } else {
        assert(al =~= Seq::<SyncActionView>::empty());
    }
    if ty.len() == 1 {
        lemma_apply_single(s3, ty[0]);
        assert(ty =~= seq![ty[0]]);
    } else {
        assert(ty =~= Seq::<SyncActionView>::empty());
    }
    assert(s8.algorithm == want.algorithm);
    assert(s8.balancer_type == want.balancer_type);

    // Listeners.
    assert(s4.services == services_map(current.services@));
    assert(s8.services =~= want.services) by {
        assert forall|p: i32| s8.services.contains_key(p) <==> want.services.contains_key(p) by {
            let added = adds.contains(SyncActionView::AddService(desired_service(lb, p)));
            if added {
                let k = choose|k: int|
                    0 <= k < adds.len() && adds[k] == SyncActionView::AddService(
                        desired_service(lb, p),
                    );
                assert(adds[k] matches SyncActionView::AddService(c) && c.listen_port == p);
            }
            if lb.services@.contains_key(p) && !has_port(current.services@, p) {
                assert(added);
            }
            if has_port(current.services@, p) {
                if lb.services@.contains_key(p) {
                    if !port_differs(current.services@, lb, p) {
                        assert(keeps_port(s5.services, s4.services, p));
                        assert(services_map(current.services@).contains_key(p));
                    }
                }
            } else {
                assert(keeps_port(s5.services, s4.services, p));
            }
        }
        assert forall|p: i32| #[trigger] s8.services.contains_key(p) implies s8.services[p]
            == want.services[p] by {
            let added = adds.contains(SyncActionView::AddService(desired_service(lb, p)));
            if added {
                let k = choose|k: int|
                    0 <= k < adds.len() && adds[k] == SyncActionView::AddService(
                        desired_service(lb, p),
                    );
                assert(adds[k] matches SyncActionView::AddService(c) && c.listen_port == p);
            } else {
                if has_port(current.services@, p) {
                    if !port_differs(current.services@, lb, p) {
                        assert(keeps_port(s5.services, s4.services, p));
                        let i = choose|i: int|
                            0 <= i < current.services@.len() && current.services@[i].listen_port
                                == p && services_map(current.services@)[p]
                                == current.services@[i];
                        assert(current.services@[i] == desired_service(lb, p));
                    }
                } else {
                    assert(keeps_port(s5.services, s4.services, p));
                    assert(!services_map(current.services@).contains_key(p));
                }
            }
        }
    }

    // Targets.
    assert(s8.targets =~= want.targets) by {
        assert forall|t: Seq<char>| s8.targets.contains(t) <==> want.targets.contains(t) by {
            assert(s6.targets == s0.targets);
        }
    }
    assert(s8 =~= want);
}

/// Delete, in order, every current listener.
pub open spec fn service_deletions(current: Seq<ServiceConfig>) -> Seq<SyncActionView>
    decreases current.len(),
{
    if current.len() == 0 {
        Seq::empty()
    } else {
        service_deletions(current.drop_last()) + seq![
            SyncActionView::DeleteService(current.last().listen_port),
        ]
    }
}

/// The calls that empty a balancer before it is deleted: delete every
/// listener, then remove every target.
pub open spec fn cleanup_actions(current: CurrentBalancer) -> Seq<SyncActionView> {
    service_deletions(current.services@) + target_removals(
        string_views(current.targets@),
        Seq::empty(),
    )
}

/// Whether a listener has the settings that the balancer `lb` wants for its
/// port: the port is wanted, the destination is the wanted node port, and
/// the proxy mode and health check settings are the balancer's.
pub open spec fn carries_settings(c: ServiceConfig, lb: LoadBalancer) -> bool {
    &&& lb.services@.contains_key(c.listen_port)
    &&& c.destination_port == lb.services@[c.listen_port]
    &&& c.proxy_mode == lb.proxy_mode
    &&& c.check_interval == lb.check_interval
    &&& c.timeout == lb.timeout
    &&& c.retries == lb.retries
}

/// Every listener that a plan adds or updates gets the balancer's wanted
/// destination port, proxy mode and health check settings; and in the
/// state that the plan reaches, each listener has them too.
pub proof fn lemma_sync_listeners_carry_settings(
    plan: Seq<SyncActionView>,
    lb: LoadBalancer,
    current: CurrentBalancer,
    network: Option<i64>,
)
    requires
        is_sync_plan(plan, lb, current, network),
    ensures
        forall|i: int|
            0 <= i < plan.len() ==> match #[trigger] plan[i] {
                SyncActionView::AddService(c) => carries_settings(c, lb),
                SyncActionView::UpdateService(c) => carries_settings(c, lb),
                _ => true,
            },
        forall|p: i32| #[trigger]
            apply_actions(current_state(current), plan).services.contains_key(p) ==> {
                let c = apply_actions(current_state(current), plan).services[p];
                c.listen_port == p && carries_settings(c, lb)
            },
{
    lemma_sync_calls_fit(plan, lb, current, network);
    assert forall|i: int| 0 <= i < plan.len() implies match #[trigger] plan[i] {
        SyncActionView::AddService(c) => carries_settings(c, lb),
        SyncActionView::UpdateService(c) => carries_settings(c, lb),
        _ => true,
    } by {
        assert(call_fits(plan[i], lb, network));
    }
    lemma_sync_reaches_desired(plan, lb, current, network);
}

/// Whether a call moves the balancer towards the one that `lb` and the
/// wanted network describe: it detaches only an unwanted network, attaches
/// only the wanted one with the wanted private address, sets the wanted
/// algorithm and type, deletes only an unwanted listener, adds or updates
/// listeners with the wanted settings, removes only unwanted targets and
/// adds only wanted ones.
pub open spec fn call_fits(a: SyncActionView, lb: LoadBalancer, network: Option<i64>) -> bool {
    match a {
        SyncActionView::DetachNetwork(n) => network != Some(n),
        SyncActionView::AttachNetwork { network: n, ip } => network == Some(n) && ip == opt_view(
            lb.private_ip,
        ),
        SyncActionView::ChangeAlgorithm(x) => x == lb.algorithm,
        SyncActionView::ChangeType(t) => t == lb.balancer_type@,
        SyncActionView::DeleteService(p) => !lb.services@.contains_key(p),
        SyncActionView::UpdateService(c) => carries_settings(c, lb),
        SyncActionView::AddService(c) => carries_settings(c, lb),
        SyncActionView::RemoveTarget(t) => !string_views(lb.targets@).contains(t),
        SyncActionView::AddTarget(t) => string_views(lb.targets@).contains(t),
    }
}

/// Whether every call of the list fits.
pub open spec fn all_fit(actions: Seq<SyncActionView>, lb: LoadBalancer, network: Option<i64>) -> bool {
    forall|i: int| 0 <= i < actions.len() ==> call_fits(#[trigger] actions[i], lb, network)
}

proof fn lemma_all_fit_concat(
    a: Seq<SyncActionView>,
    b: Seq<SyncActionView>,
    lb: LoadBalancer,
    network: Option<i64>,
)
    requires
        all_fit(a, lb, network),
        all_fit(b, lb, network),
    ensures
        all_fit(a + b, lb, network),
{
    assert forall|i: int| 0 <= i < (a + b).len() implies call_fits(#[trigger] (a + b)[i], lb, network) by {
        if i < a.len() {
            assert((a + b)[i] == a[i]);
        } else {
            assert((a + b)[i] == b[i - a.len()]);
        }
    }
}

proof fn lemma_detaches_fit(current: Seq<i64>, lb: LoadBalancer, network: Option<i64>)
    ensures
        all_fit(network_detaches(current, network), lb, network),
    decreases current.len(),
{
    if current.len() > 0 {
        lemma_detaches_fit(current.drop_last(), lb, network);
        let step: Seq<SyncActionView> = if network == Some(current.last()) {
            Seq::empty()
        } else {
            seq![SyncActionView::DetachNetwork(current.last())]
        };
        assert(all_fit(step, lb, network));
        lemma_all_fit_concat(network_detaches(current.drop_last(), network), step, lb, network);
    }
}

proof fn lemma_service_changes_fit(current: Seq<ServiceConfig>, lb: LoadBalancer, network: Option<i64>)
    ensures
        all_fit(service_changes(current, lb), lb, network),
    decreases current.len(),
{
    if current.len() > 0 {
        let pre = current.drop_last();
        lemma_service_changes_fit(pre, lb, network);
        let s = current.last();
        let step: Seq<SyncActionView> = if !lb.services@.contains_key(s.listen_port) {
            seq![SyncActionView::DeleteService(s.listen_port)]
        } else if s != desired_service(lb, s.listen_port) {
            seq![SyncActionView::UpdateService(desired_service(lb, s.listen_port))]
        } else {
            Seq::empty()
        };
        assert(all_fit(step, lb, network));
        lemma_all_fit_concat(service_changes(pre, lb), step, lb, network);
    }
}

proof fn lemma_removals_fit(current: Seq<Seq<char>>, lb: LoadBalancer, network: Option<i64>)
    ensures
        all_fit(target_removals(current, string_views(lb.targets@)), lb, network),
    decreases current.len(),
{
    if current.len() > 0 {
        let wanted = string_views(lb.targets@);
        lemma_removals_fit(current.drop_last(), lb, network);
        let step: Seq<SyncActionView> = if wanted.contains(current.last()) {
            Seq::empty()
        } else {
            seq![SyncActionView::RemoveTarget(current.last())]
        };
        assert(all_fit(step, lb, network));
        lemma_all_fit_concat(target_removals(current.drop_last(), wanted), step, lb, network);
    }
}

proof fn lemma_additions_fit(
    wanted: Seq<Seq<char>>,
    current: Seq<Seq<char>>,
    lb: LoadBalancer,
    network: Option<i64>,
)
    requires
        forall|i: int| 0 <= i < wanted.len() ==> string_views(lb.targets@).contains(#[trigger] wanted[i]),
    ensures
        all_fit(target_additions(wanted, current), lb, network),
    decreases wanted.len(),
{
    if wanted.len() > 0 {
        let pre = wanted.drop_last();
        assert forall|i: int| 0 <= i < pre.len() implies string_views(lb.targets@).contains(
            #[trigger] pre[i],
        ) by {
            assert(pre[i] == wanted[i]);
        }
        lemma_additions_fit(pre, current, lb, network);
        let t = wanted.last();
        assert(string_views(lb.targets@).contains(wanted[wanted.len() - 1]));
        let step: Seq<SyncActionView> = if current.contains(t) || pre.contains(t) {
            Seq::empty()
        } else {
            seq![SyncActionView::AddTarget(t)]
        };
        assert(all_fit(step, lb, network));
        lemma_all_fit_concat(target_additions(pre, current), step, lb, network);
    }
}

/// Every call of a plan moves the balancer towards the wanted one: no call
/// detaches the wanted network, deletes a wanted listener or removes a
/// wanted target; attaching, changing the algorithm or the type, adding or
/// updating a listener and adding a target all set what `lb` and the
/// wanted network ask for.
pub proof fn lemma_sync_calls_fit(
    plan: Seq<SyncActionView>,
    lb: LoadBalancer,
    current: CurrentBalancer,
    network: Option<i64>,
)
    requires
        is_sync_plan(plan, lb, current, network),
    ensures
        forall|i: int| 0 <= i < plan.len() ==> call_fits(#[trigger] plan[i], lb, network),
{
    let head = plan_head(lb, current, network);
    let tail = plan_tail(lb, current);
    let adds = plan.subrange(head.len() as int, plan.len() - tail.len());
    assert(plan =~= head + adds + tail);
    let nets = current.networks@;
    let d = network_detaches(nets, network);
    let at = network_attach(nets, network, opt_view(lb.private_ip));
    let al = algorithm_change(current.algorithm, lb.algorithm);
    let ty = type_change(current.balancer_type@, lb.balancer_type@);
    let sc = service_changes(current.services@, lb);
    let cur_t = string_views(current.targets@);
    let want_t = string_views(lb.targets@);
    let rm = target_removals(cur_t, want_t);
    let ad = target_additions(want_t, cur_t);
    assert(head == d + at + al + ty + sc);
    assert(tail == rm + ad);
    lemma_detaches_fit(nets, lb, network);
    assert(all_fit(at, lb, network));
    assert(all_fit(al, lb, network));
    assert(all_fit(ty, lb, network));
    lemma_service_changes_fit(current.services@, lb, network);
    lemma_all_fit_concat(d, at, lb, network);
    lemma_all_fit_concat(d + at, al, lb, network);
    lemma_all_fit_concat(d + at + al, ty, lb, network);
    lemma_all_fit_concat(d + at + al + ty, sc, lb, network);
    assert(all_fit(adds, lb, network)) by {
        assert forall|i: int| 0 <= i < adds.len() implies call_fits(#[trigger] adds[i], lb, network) by {
            assert(adds[i] matches SyncActionView::AddService(_));
        }
    }
    lemma_removals_fit(cur_t, lb, network);
    assert forall|i: int| 0 <= i < want_t.len() implies want_t.contains(#[trigger] want_t[i]) by {}
    lemma_additions_fit(want_t, cur_t, lb, network);
    lemma_all_fit_concat(rm, ad, lb, network);
    lemma_all_fit_concat(head, adds, lb, network);
    lemma_all_fit_concat(head + adds, tail, lb, network);
}

/// After a plan's calls, the balancer has the wanted algorithm and type, a
/// listener on exactly the wanted ports, exactly the wanted targets, and is
/// attached to exactly the wanted network (to none if none is wanted).
pub proof fn lemma_sync_end_state(
    plan: Seq<SyncActionView>,
    lb: LoadBalancer,
    current: CurrentBalancer,
    network: Option<i64>,
)
    requires
        is_sync_plan(plan, lb, current, network),
    ensures
        apply_actions(current_state(current), plan).algorithm == lb.algorithm,
        apply_actions(current_state(current), plan).balancer_type == lb.balancer_type@,
        forall|p: i32|
            #[trigger] apply_actions(current_state(current), plan).services.contains_key(p)
                <==> lb.services@.contains_key(p),
        forall|t: Seq<char>|
            #[trigger] apply_actions(current_state(current), plan).targets.contains(t) <==> exists|
                i: int,
            |
                0 <= i < lb.targets@.len() && (#[trigger] lb.targets@[i])@ == t,
        forall|n: i64|
            #[trigger] apply_actions(current_state(current), plan).networks.contains(n) <==> network
                == Some(n),
{
    lemma_sync_reaches_desired(plan, lb, current, network);
    let e = apply_actions(current_state(current), plan);
    let want_t = string_views(lb.targets@);
    assert forall|t: Seq<char>| #[trigger] e.targets.contains(t) <==> exists|i: int|
        0 <= i < lb.targets@.len() && (#[trigger] lb.targets@[i])@ == t by {
        if e.targets.contains(t) {
            assert(want_t.contains(t));
            let i = choose|i: int| 0 <= i < want_t.len() && want_t[i] == t;
            assert(lb.targets@[i]@ == t);
        }
        if exists|i: int| 0 <= i < lb.targets@.len() && (#[trigger] lb.targets@[i])@ == t {
            let i = choose|i: int| 0 <= i < lb.targets@.len() && (#[trigger] lb.targets@[i])@ == t;
            assert(want_t[i] == t);
        }
    }
}

/// Whether no two listeners share a port.
pub open spec fn ports_distinct(services: Seq<ServiceConfig>) -> bool {
    forall|i: int, j: int|
        0 <= i < j < services.len() ==> services[i].listen_port != services[j].listen_port
}

/// No network is detached when each current one is the wanted one.
proof fn lemma_no_detaches(current: Seq<i64>, network: Option<i64>)
    requires
        forall|i: int| 0 <= i < current.len() ==> network == Some(#[trigger] current[i]),
    ensures
        network_detaches(current, network) == Seq::<SyncActionView>::empty(),
    decreases current.len(),
{
    if current.len() > 0 {
        let pre = current.drop_last();
        assert forall|i: int| 0 <= i < pre.len() implies network == Some(#[trigger] pre[i]) by {
            assert(pre[i] == current[i]);
        }
        lemma_no_detaches(pre, network);
        assert(network == Some(current[current.len() - 1]));
        assert(network_detaches(current, network) =~= Seq::<SyncActionView>::empty());
    }
}

/// No listener is deleted or updated when each one is the wanted one.
proof fn lemma_no_service_changes(current: Seq<ServiceConfig>, lb: LoadBalancer)
    requires
        forall|i: int|
            0 <= i < current.len() ==> lb.services@.contains_key(#[trigger] current[i].listen_port)
                && current[i] == desired_service(lb, current[i].listen_port),
    ensures
        service_changes(current, lb) == Seq::<SyncActionView>::empty(),
    decreases current.len(),
{
    if current.len() > 0 {
        let pre = current.drop_last();
        assert forall|i: int| 0 <= i < pre.len() implies lb.services@.contains_key(
            #[trigger] pre[i].listen_port,
        ) && pre[i] == desired_service(lb, pre[i].listen_port) by {
            assert(pre[i] == current[i]);
        }
        lemma_no_service_changes(pre, lb);
        let last = current[current.len() - 1];
        assert(lb.services@.contains_key(last.listen_port));
        assert(service_changes(current, lb) =~= Seq::<SyncActionView>::empty());
    }
}

/// No target is removed when each current one is wanted.
proof fn lemma_no_target_removals(current: Seq<Seq<char>>, wanted: Seq<Seq<char>>)
    requires
        forall|i: int| 0 <= i < current.len() ==> wanted.contains(#[trigger] current[i]),
    ensures
        target_removals(current, wanted) == Seq::<SyncActionView>::empty(),
    decreases current.len(),
{
    if current.len() > 0 {
        let pre = current.drop_last();
        assert forall|i: int| 0 <= i < pre.len() implies wanted.contains(#[trigger] pre[i]) by {
            assert(pre[i] == current[i]);
        }
        lemma_no_target_removals(pre, wanted);
        assert(wanted.contains(current[current.len() - 1]));
        assert(target_removals(current, wanted) =~= Seq::<SyncActionView>::empty());
    }
}

/// No target is added when each wanted one is current.
proof fn lemma_no_target_additions(wanted: Seq<Seq<char>>, current: Seq<Seq<char>>)
    requires
        forall|i: int| 0 <= i < wanted.len() ==> current.contains(#[trigger] wanted[i]),
    ensures
        target_additions(wanted, current) == Seq::<SyncActionView>::empty(),
    decreases wanted.len(),
{
    if wanted.len() > 0 {
        let pre = wanted.drop_last();
        assert forall|i: int| 0 <= i < pre.len() implies current.contains(#[trigger] pre[i]) by {
            assert(pre[i] == wanted[i]);
        }
        lemma_no_target_additions(pre, current);
        assert(current.contains(wanted[wanted.len() - 1]));
        assert(target_additions(wanted, current) =~= Seq::<SyncActionView>::empty());
    }
}

/// A balancer that is already in line with the desired one, and has at most
/// one listener per port, gets no call at all.
pub proof fn lemma_sync_in_line_is_empty(
    plan: Seq<SyncActionView>,
    lb: LoadBalancer,
    current: CurrentBalancer,
    network: Option<i64>,
)
    requires
        is_sync_plan(plan, lb, current, network),
        ports_distinct(current.services@),
        current_state(current) == desired_state(lb, network),
    ensures
        plan.len() == 0,
{
    let cs = current_state(current);
    let ds = desired_state(lb, network);
    let nets = current.networks@;
    let cur = current.services@;
    let cur_t = string_views(current.targets@);
    let want_t = string_views(lb.targets@);

    assert forall|i: int| 0 <= i < nets.len() implies network == Some(#[trigger] nets[i]) by {
        assert(cs.networks.contains(nets[i]));
    }
    lemma_no_detaches(nets, network);
    if network is Some {
        assert(ds.networks.contains(network->0));
        assert(nets.to_set().contains(network->0));
        assert(nets.contains(network->0));
    }
    assert(network_attach(nets, network, opt_view(lb.private_ip)) =~= Seq::<SyncActionView>::empty());
    assert(algorithm_change(current.algorithm, lb.algorithm) =~= Seq::<SyncActionView>::empty());
    assert(type_change(current.balancer_type@, lb.balancer_type@) =~= Seq::<SyncActionView>::empty());

    lemma_services_map(cur);
    assert forall|i: int| 0 <= i < cur.len() implies lb.services@.contains_key(
        #[trigger] cur[i].listen_port,
    ) && cur[i] == desired_service(lb, cur[i].listen_port) by {
        let p = cur[i].listen_port;
        assert(has_port(cur, p));
        assert(services_map(cur).contains_key(p));
        assert(ds.services.contains_key(p));
        let j = choose|j: int|
            0 <= j < cur.len() && cur[j].listen_port == p && services_map(cur)[p] == cur[j];
        if j != i {
            if j < i {
                assert(cur[j].listen_port != cur[i].listen_port);
            } else {
                assert(cur[i].listen_port != cur[j].listen_port);
            }
        }
        assert(ds.services[p] == desired_service(lb, p));
    }
    lemma_no_service_changes(cur, lb);

    assert forall|i: int| 0 <= i < cur_t.len() implies want_t.contains(#[trigger] cur_t[i]) by {
        assert(cs.targets.contains(cur_t[i]));
    }
    lemma_no_target_removals(cur_t, want_t);
    assert forall|i: int| 0 <= i < want_t.len() implies cur_t.contains(#[trigger] want_t[i]) by {
        assert(ds.targets.contains(want_t[i]));
    }
    lemma_no_target_additions(want_t, cur_t);

    let head = plan_head(lb, current, network);
    let tail = plan_tail(lb, current);
    assert(head =~= Seq::<SyncActionView>::empty());
    assert(tail =~= Seq::<SyncActionView>::empty());
    let adds = plan.subrange(head.len() as int, plan.len() - tail.len());
    assert(adds =~= plan);
    if plan.len() > 0 {
        let a = adds[0];
        if let SyncActionView::AddService(c) = a {
            assert(lb.services@.contains_key(c.listen_port));
            assert(ds.services.contains_key(c.listen_port));
            assert(services_map(cur).contains_key(c.listen_port));
            assert(has_port(cur, c.listen_port));
        }
    }
}

/// Deleting the listeners of a list removes exactly their ports.
proof fn lemma_service_deletions(s: BalancerState, current: Seq<ServiceConfig>)
    ensures
        only_part(service_deletions(current), 3),
        forall|p: i32|
            #[trigger] apply_actions(s, service_deletions(current)).services.contains_key(p)
                <==> s.services.contains_key(p) && !has_port(current, p),
    decreases current.len(),
{
    if current.len() > 0 {
        let pre = current.drop_last();
        let x = current.last();
        let step = seq![SyncActionView::DeleteService(x.listen_port)];
        lemma_service_deletions(s, pre);
        assert(service_deletions(current) == service_deletions(pre) + step);
        lemma_only_part_concat(service_deletions(pre), step, 3);
        lemma_apply_concat(s, service_deletions(pre), step);
        lemma_apply_single(apply_actions(s, service_deletions(pre)), step[0]);
        assert forall|p: i32|
            #[trigger] apply_actions(s, service_deletions(current)).services.contains_key(p)
                <==> s.services.contains_key(p) && !has_port(current, p) by {
            assert(current[current.len() - 1] == x);
            if has_port(current, p) && p != x.listen_port {
                let i = choose|i: int| 0 <= i < current.len() && #[trigger] current[i].listen_port == p;
                assert(pre[i] == current[i]);
            }
            if has_port(pre, p) {
                let i = choose|i: int| 0 <= i < pre.len() && #[trigger] pre[i].listen_port == p;
                assert(current[i] == pre[i]);
            }
        }
    } else {
        assert(apply_actions(s, service_deletions(current)) == s);
    }
}

/// Making the cleanup calls leaves the balancer without listeners and
/// without targets, and changes nothing else.
pub proof fn lemma_cleanup_empties(current: CurrentBalancer)
    ensures
        apply_actions(current_state(current), cleanup_actions(current)).services
            == Map::<i32, ServiceConfig>::empty(),
        apply_actions(current_state(current), cleanup_actions(current)).targets == Set::<
            Seq<char>,
        >::empty(),
        apply_actions(current_state(current), cleanup_actions(current)).networks == current_state(
            current,
        ).networks,
        apply_actions(current_state(current), cleanup_actions(current)).algorithm == current.algorithm,
        apply_actions(current_state(current), cleanup_actions(current)).balancer_type
            == current.balancer_type@,
{
    let s0 = current_state(current);
    let del = service_deletions(current.services@);
    let rm = target_removals(string_views(current.targets@), Seq::empty());
    lemma_apply_concat(s0, del, rm);
    lemma_service_deletions(s0, current.services@);
    lemma_other_parts_kept(s0, del, 3);
    let s1 = apply_actions(s0, del);
    lemma_target_removals(s1, string_views(current.targets@), Seq::empty());
    lemma_other_parts_kept(s1, rm, 4);
    lemma_services_map(current.services@);
    let end = apply_actions(s0, cleanup_actions(current));
    assert(end.services =~= Map::<i32, ServiceConfig>::empty());
    assert(end.targets =~= Set::<Seq<char>>::empty());
}

/// Plans the calls that empty the balancer `current` before it is
/// deleted: delete every listener, then remove every target.
pub fn plan_cleanup(current: &CurrentBalancer) -> (r: Vec<SyncAction>)
    ensures
        action_views(r@) == cleanup_actions(*current),
        apply_actions(current_state(*current), action_views(r@)).services == Map::<
            i32,
            ServiceConfig,
        >::empty(),
        apply_actions(current_state(*current), action_views(r@)).targets == Set::<
            Seq<char>,
        >::empty(),
{
    let mut plan: Vec<SyncAction> = Vec::new();
    assert(action_views(plan@) =~= service_deletions(current.services@.take(0)));
    let n = current.services.len();
    for i in 0..n
        invariant
            n == current.services@.len(),
            action_views(plan@) == service_deletions(current.services@.take(i as int)),
    {
        let port = current.services[i].listen_port;
        let ghost before = action_views(plan@);
        plan.push(SyncAction::DeleteService(port));
        assert(current.services@.take(i + 1).drop_last() =~= current.services@.take(i as int));
        assert(action_views(plan@) =~= before.push(SyncActionView::DeleteService(port)));
        assert(action_views(plan@) =~= service_deletions(current.services@.take(i + 1)));
    }
    assert(current.services@.take(n as int) =~= current.services@);
    let ghost deletions = action_views(plan@);
    let ghost targets = string_views(current.targets@);
    let n = current.targets.len();
    for i in 0..n
        invariant
            n == current.targets@.len(),
            targets == string_views(current.targets@),
            action_views(plan@) == deletions + target_removals(
                targets.take(i as int),
                Seq::empty(),
            ),
    {
        let t = &current.targets[i];
        let ghost before = action_views(plan@);
        plan.push(SyncAction::RemoveTarget(t.clone()));
        assert(targets.take(i + 1).drop_last() =~= targets.take(i as int));
        assert(targets.take(i + 1).last() == t@);
        assert(!Seq::<Seq<char>>::empty().contains(t@));
        assert(action_views(plan@) =~= before.push(SyncActionView::RemoveTarget(t@)));
        assert(action_views(plan@) =~= deletions + target_removals(
            targets.take(i + 1),
            Seq::empty(),
        ));
    }
    assert(targets.take(n as int) =~= targets);
    proof {
        lemma_cleanup_empties(*current);
    }
    plan
}

} // verus!
