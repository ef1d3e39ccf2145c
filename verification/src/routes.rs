//! Backends of Gateway API routes, and the ports that a Gateway's balancer
//! forwards to them.

use crate::error::{RobotLBError, RobotLBResult};
use std::collections::HashMap;
use vstd::prelude::*;
use vstd::string::StringExecFns;

verus! {

/// Information about a backend service extracted from a route.
#[derive(Debug, Clone)]
pub struct BackendInfo {
    pub service_name: String,
    pub service_namespace: String,
    pub port: Option<i32>,
}

/// A backend as character sequences.
pub struct BackendInfoView {
    pub service_name: Seq<char>,
    pub service_namespace: Seq<char>,
    pub port: Option<i32>,
}

impl View for BackendInfo {
    type V = BackendInfoView;

    open spec fn view(&self) -> BackendInfoView {
        BackendInfoView {
            service_name: self.service_name@,
            service_namespace: self.service_namespace@,
            port: self.port,
        }
    }
}

/// The views of a list of backends.
pub open spec fn backend_views(s: Seq<BackendInfo>) -> Seq<BackendInfoView> {
    s.map_values(|b: BackendInfo| b@)
}

/// Information extracted from routes for a specific Gateway.
#[derive(Debug)]
pub struct RouteInfo {
    pub backend_services: Vec<BackendInfo>,
    /// Listener port to backend port.
    pub port_mappings: HashMap<i32, i32>,
}

/// A route's reference to the Gateway it attaches to.
#[derive(Debug, Clone)]
pub struct RouteParentRef {
    pub name: String,
    pub namespace: Option<String>,
}

/// A route's reference to a backend service.
#[derive(Debug, Clone)]
pub struct RouteBackendRef {
    pub name: String,
    pub namespace: Option<String>,
    pub port: Option<i32>,
}

/// One rule of an HTTPRoute; only its backends matter here.
#[derive(Debug, Clone)]
pub struct HttpRouteRule {
    pub backend_refs: Option<Vec<RouteBackendRef>>,
}

/// What the operator reads of an HTTPRoute.
#[derive(Debug, Clone)]
pub struct HttpRoute {
    pub namespace: Option<String>,
    pub parent_refs: Option<Vec<RouteParentRef>>,
    pub rules: Option<Vec<HttpRouteRule>>,
}

/// One rule of a TCPRoute; only its backends matter here.
#[derive(Debug, Clone)]
pub struct TcpRouteRule {
    pub backend_refs: Vec<RouteBackendRef>,
}

/// What the operator reads of a TCPRoute.
#[derive(Debug, Clone)]
pub struct TcpRoute {
    pub namespace: Option<String>,
    pub parent_refs: Option<Vec<RouteParentRef>>,
    pub rules: Vec<TcpRouteRule>,
}

/// A namespace if given, else the fallback.
pub open spec fn namespace_or(ns: Option<String>, fallback: Seq<char>) -> Seq<char> {
    match ns {
        Some(n) => n@,
        None => fallback,
    }
}

/// Whether a parent reference names the Gateway `gateway_name` in
/// `gateway_namespace`; a reference without a namespace means the route's.
pub open spec fn refers_to_gateway(
    parent: RouteParentRef,
    route_namespace: Seq<char>,
    gateway_name: Seq<char>,
    gateway_namespace: Seq<char>,
) -> bool {
    parent.name@ == gateway_name && namespace_or(parent.namespace, route_namespace)
        == gateway_namespace
}

/// Whether any of the parent references names the Gateway.
pub open spec fn references_gateway(
    parents: Seq<RouteParentRef>,
    route_namespace: Seq<char>,
    gateway_name: Seq<char>,
    gateway_namespace: Seq<char>,
) -> bool {
    exists|i: int|
        0 <= i < parents.len() && #[trigger] refers_to_gateway(
            parents[i],
            route_namespace,
            gateway_name,
            gateway_namespace,
        )
}

/// The backend that a reference names; a reference without a namespace
/// means the route's.
pub open spec fn backend_of(r: RouteBackendRef, route_namespace: Seq<char>) -> BackendInfoView {
    BackendInfoView {
        service_name: r.name@,
        service_namespace: namespace_or(r.namespace, route_namespace),
        port: r.port,
    }
}

/// The backends of a list of references, in order.
pub open spec fn backends_of(refs: Seq<RouteBackendRef>, route_namespace: Seq<char>) -> Seq<
    BackendInfoView,
> {
    refs.map_values(|r: RouteBackendRef| backend_of(r, route_namespace))
}

/// The backends of all HTTPRoute rules, rule by rule.
pub open spec fn http_rules_backends(rules: Seq<HttpRouteRule>, route_namespace: Seq<char>) -> Seq<
    BackendInfoView,
>
    decreases rules.len(),
{
    if rules.len() == 0 {
        Seq::empty()
    } else {
        http_rules_backends(rules.drop_last(), route_namespace) + match rules.last().backend_refs {
            Some(refs) => backends_of(refs@, route_namespace),
            None => Seq::empty(),
        }
    }
}

/// The backends of all TCPRoute rules, rule by rule.
pub open spec fn tcp_rules_backends(rules: Seq<TcpRouteRule>, route_namespace: Seq<char>) -> Seq<
    BackendInfoView,
>
    decreases rules.len(),
{
    if rules.len() == 0 {
        Seq::empty()
    } else {
        tcp_rules_backends(rules.drop_last(), route_namespace) + backends_of(
            rules.last().backend_refs@,
            route_namespace,
        )
    }
}

/// The backends that an HTTPRoute contributes to the Gateway: all of them
/// if the route references the Gateway, none otherwise.
pub open spec fn spec_http_route_backends(
    route: HttpRoute,
    gateway_name: Seq<char>,
    gateway_namespace: Seq<char>,
) -> Seq<BackendInfoView> {
    let route_namespace = namespace_or(route.namespace, gateway_namespace);
    if references_gateway(route.parent_refs->0@, route_namespace, gateway_name, gateway_namespace) {
        match route.rules {
            Some(rules) => http_rules_backends(rules@, route_namespace),
            None => Seq::empty(),
        }
    } else {
        Seq::empty()
    }
}

/// The backends that a TCPRoute contributes to the Gateway: all of them if
/// the route references the Gateway, none otherwise.
pub open spec fn spec_tcp_route_backends(
    route: TcpRoute,
    gateway_name: Seq<char>,
    gateway_namespace: Seq<char>,
) -> Seq<BackendInfoView> {
    let route_namespace = namespace_or(route.namespace, gateway_namespace);
    if references_gateway(route.parent_refs->0@, route_namespace, gateway_name, gateway_namespace) {
        tcp_rules_backends(route.rules@, route_namespace)
    } else {
        Seq::empty()
    }
}

/// A namespace if given, else the fallback.
fn namespace_or_else(ns: &Option<String>, fallback: &str) -> (r: String)
    ensures
        r@ == namespace_or(*ns, fallback@),
{
    match ns {
        Some(n) => n.clone(),
        None => fallback.to_owned(),
    }
}

/// Whether any of the parent references names the Gateway.
fn any_parent_references(
    parents: &Vec<RouteParentRef>,
    route_namespace: &String,
    gateway_name: &str,
    gateway_namespace: &str,
) -> (r: bool)
    ensures
        r == references_gateway(parents@, route_namespace@, gateway_name@, gateway_namespace@),
{
    let name = gateway_name.to_owned();
    let namespace = gateway_namespace.to_owned();
    let n = parents.len();
    for i in 0..n
        invariant
            n == parents@.len(),
            name@ == gateway_name@,
            namespace@ == gateway_namespace@,
            forall|j: int|
                0 <= j < i ==> !#[trigger] refers_to_gateway(
                    parents@[j],
                    route_namespace@,
                    gateway_name@,
                    gateway_namespace@,
                ),
    {
        let parent = &parents[i];
        let parent_namespace = match &parent.namespace {
            Some(ns) => ns,
            None => route_namespace,
        };
        if parent.name == name && *parent_namespace == namespace {
            assert(refers_to_gateway(
                parents@[i as int],
                route_namespace@,
                gateway_name@,
                gateway_namespace@,
            ));
            return true;
        }
    }
    false
}

/// Appends the backends of `refs` to `out`, in order.
fn push_backends(out: &mut Vec<BackendInfo>, refs: &Vec<RouteBackendRef>, route_namespace: &String)
    ensures
        backend_views(final(out)@) == backend_views(old(out)@) + backends_of(
            refs@,
            route_namespace@,
        ),
{
    let ghost start = backend_views(out@);
    let n = refs.len();
    for i in 0..n
        invariant
            n == refs@.len(),
            backend_views(out@) == start + backends_of(refs@.take(i as int), route_namespace@),
    {
        let backend_ref = &refs[i];
        let service_namespace = match &backend_ref.namespace {
            Some(ns) => ns.clone(),
            None => route_namespace.clone(),
        };
        let ghost before = out@;
        out.push(
            BackendInfo {
                service_name: backend_ref.name.clone(),
                service_namespace,
                port: backend_ref.port,
            },
        );
        proof {
            assert(backends_of(refs@.take(i + 1), route_namespace@) =~= backends_of(
                refs@.take(i as int),
                route_namespace@,
            ).push(backend_of(refs@[i as int], route_namespace@)));
            assert(backend_views(out@) =~= backend_views(before).push(out@.last()@));
        }
    }
    assert(refs@.take(n as int) =~= refs@);
}

/// Extracts the backend services of an HTTPRoute that attaches to the
/// Gateway `gateway_name` in `gateway_namespace`. A route without parent
/// references is an error; a route that references other Gateways only
/// contributes nothing. Backends without a namespace are taken to live in
/// the route's namespace, and a route without a namespace in the Gateway's.
pub fn extract_http_route_backends(
    route: &HttpRoute,
    gateway_name: &str,
    gateway_namespace: &str,
) -> (r: RobotLBResult<Vec<BackendInfo>>)
    ensures
        match r {
            Ok(backends) => route.parent_refs is Some && backend_views(backends@)
                == spec_http_route_backends(*route, gateway_name@, gateway_namespace@),
            Err(e) => route.parent_refs is None && e is RouteWithoutParentRefs,
        },
{
    let route_namespace = namespace_or_else(&route.namespace, gateway_namespace);
    let parent_refs = match &route.parent_refs {
        Some(p) => p,
        None => return Err(RobotLBError::RouteWithoutParentRefs),
    };
    if !any_parent_references(parent_refs, &route_namespace, gateway_name, gateway_namespace) {
        let none: Vec<BackendInfo> = Vec::new();
        assert(backend_views(none@) =~= Seq::<BackendInfoView>::empty());
        return Ok(none);
    }
    let mut backends: Vec<BackendInfo> = Vec::new();
    assert(backend_views(backends@) =~= Seq::<BackendInfoView>::empty());
    if let Some(rules) = &route.rules {
        let n = rules.len();
        for i in 0..n
            invariant
                n == rules@.len(),
                backend_views(backends@) == http_rules_backends(
                    rules@.take(i as int),
                    route_namespace@,
                ),
        {
            assert(rules@.take(i + 1).drop_last() =~= rules@.take(i as int));
            match &rules[i].backend_refs {
                Some(refs) => push_backends(&mut backends, refs, &route_namespace),
                None => {
                    assert(backend_views(backends@) =~= backend_views(backends@) + Seq::<
                        BackendInfoView,
                    >::empty());
                },
            }
        }
        assert(rules@.take(n as int) =~= rules@);
    }
    Ok(backends)
}

/// Extracts the backend services of a TCPRoute that attaches to the
/// Gateway `gateway_name` in `gateway_namespace`, by the same rules as
/// `extract_http_route_backends`.
pub fn extract_tcp_route_backends(
    route: &TcpRoute,
    gateway_name: &str,
    gateway_namespace: &str,
) -> (r: RobotLBResult<Vec<BackendInfo>>)
    ensures
        match r {
            Ok(backends) => route.parent_refs is Some && backend_views(backends@)
                == spec_tcp_route_backends(*route, gateway_name@, gateway_namespace@),
            Err(e) => route.parent_refs is None && e is RouteWithoutParentRefs,
        },
{
    let route_namespace = namespace_or_else(&route.namespace, gateway_namespace);
    let parent_refs = match &route.parent_refs {
        Some(p) => p,
        None => return Err(RobotLBError::RouteWithoutParentRefs),
    };
    if !any_parent_references(parent_refs, &route_namespace, gateway_name, gateway_namespace) {
        let none: Vec<BackendInfo> = Vec::new();
        assert(backend_views(none@) =~= Seq::<BackendInfoView>::empty());
        return Ok(none);
    }
    let mut backends: Vec<BackendInfo> = Vec::new();
    assert(backend_views(backends@) =~= Seq::<BackendInfoView>::empty());
    let n = route.rules.len();
    for i in 0..n
        invariant
            n == route.rules@.len(),
            backend_views(backends@) == tcp_rules_backends(
                route.rules@.take(i as int),
                route_namespace@,
            ),
    {
        assert(route.rules@.take(i + 1).drop_last() =~= route.rules@.take(i as int));
        push_backends(&mut backends, &route.rules[i].backend_refs, &route_namespace);
    }
    assert(route.rules@.take(n as int) =~= route.rules@);
    Ok(backends)
}

/// The key by which backends are told apart: `namespace/name`.
pub open spec fn service_key(b: BackendInfoView) -> Seq<char> {
    b.service_namespace + seq!['/'] + b.service_name
}

/// The backends whose key has not occurred earlier in the list, in order:
/// the first backend of each key.
pub open spec fn first_of_each_key(s: Seq<BackendInfoView>) -> Seq<BackendInfoView>
    decreases s.len(),
{
    if s.len() == 0 {
        Seq::empty()
    } else {
        let earlier = first_of_each_key(s.drop_last());
        if exists|j: int| 0 <= j < s.len() - 1 && #[trigger] service_key(s[j]) == service_key(s.last()) {
            earlier
        } else {
            earlier.push(s.last())
        }
    }
}

/// Builds the key `namespace/name` of a backend.
fn backend_key(b: &BackendInfo) -> (r: String)
    ensures
        r@ == service_key(b@),
{
    let key = b.service_namespace.clone().concat("/").concat(b.service_name.as_str());
    proof {
        reveal_strlit("/");
        assert("/"@ =~= seq!['/']);
    }
    key
}

/// Whether `key` is among `keys`.
fn contains_key(keys: &Vec<String>, key: &String) -> (r: bool)
    ensures
        r == exists|j: int| 0 <= j < keys@.len() && #[trigger] keys@[j]@ == key@,
{
    let n = keys.len();
    for i in 0..n
        invariant
            n == keys@.len(),
            forall|j: int| 0 <= j < i ==> #[trigger] keys@[j]@ != key@,
    {
        if keys[i] == *key {
            return true;
        }
    }
    false
}

/// The backends whose Services are to be fetched: each `namespace/name`
/// once, at the place where it first occurs.
pub fn backends_to_fetch(backends: &[BackendInfo]) -> (r: Vec<BackendInfo>)
    ensures
        backend_views(r@) == first_of_each_key(backend_views(backends@)),
{
    let mut selected: Vec<BackendInfo> = Vec::new();
    let mut seen: Vec<String> = Vec::new();
    let ghost all = backend_views(backends@);
    let n = backends.len();
    assert(backend_views(selected@) =~= first_of_each_key(all.take(0)));
    for i in 0..n
        invariant
            n == backends@.len(),
            all == backend_views(backends@),
            seen@.len() == i,
            forall|j: int| 0 <= j < i ==> #[trigger] seen@[j]@ == service_key(all[j]),
            backend_views(selected@) == first_of_each_key(all.take(i as int)),
    {
        let backend = &backends[i];
        let key = backend_key(backend);
        let ghost prefix = all.take(i + 1);
        proof {
            assert(prefix.drop_last() =~= all.take(i as int));
            assert(prefix.last() == all[i as int]);
            assert forall|j: int| 0 <= j < prefix.len() - 1 implies #[trigger] prefix[j]
                == all[j] by {}
        }
        let already = contains_key(&seen, &key);
        proof {
            if already {
                let j = choose|j: int| 0 <= j < seen@.len() && #[trigger] seen@[j]@ == key@;
                assert(service_key(prefix[j]) == service_key(prefix.last()));
            } else {
                assert forall|j: int| 0 <= j < prefix.len() - 1 implies #[trigger] service_key(
                    prefix[j],
                ) != service_key(prefix.last()) by {
                    assert(seen@[j]@ == service_key(all[j]));
                }
            }
        }
        if !already {
            let ghost before = selected@;
            selected.push(
                BackendInfo {
                    service_name: backend.service_name.clone(),
                    service_namespace: backend.service_namespace.clone(),
                    port: backend.port,
                },
            );
            assert(backend_views(selected@) =~= backend_views(before).push(all[i as int]));
        }
        seen.push(key);
    }
    assert(all.take(n as int) =~= all);
    selected
}

/// The port of the first backend that names one.
pub open spec fn first_backend_port(s: Seq<BackendInfoView>) -> Option<i32>
    decreases s.len(),
{
    if s.len() == 0 {
        None
    } else if s[0].port is Some {
        s[0].port
    } else {
        first_backend_port(s.drop_first())
    }
}

/// The port mappings for a set of listener ports: each listener forwards
/// to the port of the first backend that names one, else to its own port.
pub open spec fn spec_port_mappings(listener_ports: Seq<i32>, backends: Seq<BackendInfoView>) -> Map<
    i32,
    i32,
> {
    Map::new(
        |p: i32| listener_ports.contains(p),
        |p: i32|
            match first_backend_port(backends) {
                Some(port) => port,
                None => p,
            },
    )
}

/// The port of the first backend that names one.
fn find_backend_port(backends: &[BackendInfo]) -> (r: Option<i32>)
    ensures
        r == first_backend_port(backend_views(backends@)),
{
    let ghost all = backend_views(backends@);
    let n = backends.len();
    assert(all.skip(0) =~= all);
    for i in 0..n
        invariant
            n == backends@.len(),
            all == backend_views(backends@),
            first_backend_port(all) == first_backend_port(all.skip(i as int)),
    {
        assert(all.skip(i as int)[0] == all[i as int]);
        assert(all.skip(i as int).drop_first() =~= all.skip(i + 1));
        if let Some(port) = backends[i].port {
            return Some(port);
        }
    }
    assert(all.skip(n as int).len() == 0);
    None
}

/// Determines the port mappings for the load balancer from the Gateway's
/// listener ports and the routes' backends: listener port to target port.
pub fn determine_port_mappings(listener_ports: &[i32], backends: &[BackendInfo]) -> (r: HashMap<
    i32,
    i32,
>)
    ensures
        r@ == spec_port_mappings(listener_ports@, backend_views(backends@)),
{
    broadcast use vstd::std_specs::hash::group_hash_axioms;

    let mut port_mappings: HashMap<i32, i32> = HashMap::new();
    let backend_port = find_backend_port(backends);
    let n = listener_ports.len();
    for i in 0..n
        invariant
            n == listener_ports@.len(),
            backend_port == first_backend_port(backend_views(backends@)),
            port_mappings@ == spec_port_mappings(
                listener_ports@.take(i as int),
                backend_views(backends@),
            ),
    {
        let listener_port = listener_ports[i];
        let target = match backend_port {
            Some(port) => port,
            None => listener_port,
        };
        port_mappings.insert(listener_port, target);
        proof {
            let prefix = listener_ports@.take(i + 1);
            assert(prefix =~= listener_ports@.take(i as int).push(listener_port));
            assert forall|p: i32| prefix.contains(p) <==> (listener_ports@.take(i as int).contains(
                p,
            ) || p == listener_port) by {
                if p == listener_port {
                    assert(prefix[i as int] == p);
                }
                if listener_ports@.take(i as int).contains(p) {
                    let k = choose|k: int|
                        0 <= k < i && #[trigger] listener_ports@.take(i as int)[k] == p;
                    assert(prefix[k] == p);
                }
                if prefix.contains(p) && p != listener_port {
                    let k = choose|k: int| 0 <= k < prefix.len() && #[trigger] prefix[k] == p;
                    assert(listener_ports@.take(i as int)[k] == p);
                }
            }
            assert(port_mappings@ =~= spec_port_mappings(prefix, backend_views(backends@)));
        }
    }
    assert(listener_ports@.take(n as int) =~= listener_ports@);
    port_mappings
}

/// Every backend kept for fetching is one of the given backends.
pub proof fn lemma_first_of_each_key_from_input(s: Seq<BackendInfoView>)
    ensures
        forall|i: int|
            0 <= i < first_of_each_key(s).len() ==> exists|k: int|
                0 <= k < s.len() && #[trigger] first_of_each_key(s)[i] == s[k],
    decreases s.len(),
{
    if s.len() > 0 {
        let earlier = first_of_each_key(s.drop_last());
        lemma_first_of_each_key_from_input(s.drop_last());
        assert forall|i: int| 0 <= i < first_of_each_key(s).len() implies exists|k: int|
            0 <= k < s.len() && #[trigger] first_of_each_key(s)[i] == s[k] by {
            if i < earlier.len() {
                let k = choose|k: int|
                    0 <= k < s.drop_last().len() && #[trigger] earlier[i] == s.drop_last()[k];
                assert(first_of_each_key(s)[i] == s[k]);
            } else {
                assert(first_of_each_key(s)[i] == s[s.len() - 1]);
            }
        }
    }
}

/// The backends to fetch never share a `namespace/name` key, so no Service
/// is fetched twice.
pub proof fn lemma_backends_to_fetch_unique(s: Seq<BackendInfoView>)
    ensures
        forall|i: int, j: int|
            0 <= i < j < first_of_each_key(s).len() ==> service_key(
                #[trigger] first_of_each_key(s)[i],
            ) != service_key(#[trigger] first_of_each_key(s)[j]),
    decreases s.len(),
{
    if s.len() > 0 {
        let earlier = first_of_each_key(s.drop_last());
        lemma_backends_to_fetch_unique(s.drop_last());
        lemma_first_of_each_key_from_input(s.drop_last());
        let r = first_of_each_key(s);
        assert forall|i: int, j: int| 0 <= i < j < r.len() implies service_key(#[trigger] r[i])
            != service_key(#[trigger] r[j]) by {
            if j >= earlier.len() {
                assert(r[j] == s.last());
                assert(r[i] == earlier[i]);
                let k = choose|k: int|
                    0 <= k < s.drop_last().len() && #[trigger] earlier[i] == s.drop_last()[k];
                assert(s[k] == earlier[i]);
                assert(!(exists|j: int|
                    0 <= j < s.len() - 1 && #[trigger] service_key(s[j]) == service_key(s.last())));
            } else {
                assert(r[i] == earlier[i] && r[j] == earlier[j]);
            }
        }
    }
}

/// Every given backend's Service is fetched: its key occurs among the
/// backends to fetch.
pub proof fn lemma_backends_to_fetch_covers(s: Seq<BackendInfoView>)
    ensures
        forall|i: int|
            0 <= i < s.len() ==> exists|j: int|
                0 <= j < first_of_each_key(s).len() && #[trigger] service_key(
                    first_of_each_key(s)[j],
                ) == service_key(#[trigger] s[i]),
    decreases s.len(),
{
    if s.len() > 0 {
        let earlier = first_of_each_key(s.drop_last());
        let r = first_of_each_key(s);
        lemma_backends_to_fetch_covers(s.drop_last());
        assert forall|i: int| 0 <= i < s.len() implies exists|j: int|
            0 <= j < r.len() && #[trigger] service_key(r[j]) == service_key(#[trigger] s[i]) by {
            if i < s.len() - 1 {
                assert(s[i] == s.drop_last()[i]);
                let j = choose|j: int|
                    0 <= j < earlier.len() && #[trigger] service_key(earlier[j]) == service_key(
                        s.drop_last()[i],
                    );
                assert(r[j] == earlier[j]);
            } else if exists|k: int|
                0 <= k < s.len() - 1 && #[trigger] service_key(s[k]) == service_key(s.last()) {
                let k = choose|k: int|
                    0 <= k < s.len() - 1 && #[trigger] service_key(s[k]) == service_key(s.last());
                assert(s[k] == s.drop_last()[k]);
                let j = choose|j: int|
                    0 <= j < earlier.len() && #[trigger] service_key(earlier[j]) == service_key(
                        s.drop_last()[k],
                    );
                assert(r[j] == earlier[j]);
            } else {
                assert(r[r.len() - 1] == s.last());
            }
        }
    }
}

/// Keeping the first backend of each key changes nothing on a list whose
/// keys are already distinct.
pub proof fn lemma_first_of_each_key_distinct(s: Seq<BackendInfoView>)
    requires
        forall|i: int, j: int|
            0 <= i < j < s.len() ==> service_key(#[trigger] s[i]) != service_key(#[trigger] s[j]),
    ensures
        first_of_each_key(s) == s,
    decreases s.len(),
{
    if s.len() > 0 {
        let t = s.drop_last();
        assert forall|i: int, j: int| 0 <= i < j < t.len() implies service_key(#[trigger] t[i])
            != service_key(#[trigger] t[j]) by {
            assert(t[i] == s[i] && t[j] == s[j]);
        }
        lemma_first_of_each_key_distinct(t);
        assert forall|j: int| 0 <= j < s.len() - 1 implies #[trigger] service_key(s[j])
            != service_key(s.last()) by {
            assert(s.last() == s[s.len() - 1]);
        }
        assert(t.push(s.last()) =~= s);
    }
}

/// Selecting the backends to fetch a second time selects them all again.
pub proof fn lemma_backends_to_fetch_idempotent(s: Seq<BackendInfoView>)
    ensures
        first_of_each_key(first_of_each_key(s)) == first_of_each_key(s),
{
    lemma_backends_to_fetch_unique(s);
    lemma_first_of_each_key_distinct(first_of_each_key(s));
}

/// The port mappings have exactly the listener ports as keys; every
/// listener forwards to the first port that a backend names, or to its
/// own port if no backend names one.
pub proof fn lemma_port_mappings_shape(listener_ports: Seq<i32>, backends: Seq<BackendInfoView>)
    ensures
        forall|p: i32|
            #[trigger] spec_port_mappings(listener_ports, backends).contains_key(p)
                <==> listener_ports.contains(p),
        forall|p: i32|
            listener_ports.contains(p) ==> #[trigger] spec_port_mappings(
                listener_ports,
                backends,
            )[p] == match first_backend_port(backends) {
                Some(port) => port,
                None => p,
            },
{
}

/// An HTTPRoute and a TCPRoute with the same namespace, parents and backend
/// references (rule by rule) contribute the same backends.
pub proof fn lemma_http_tcp_routes_agree(
    http: HttpRoute,
    tcp: TcpRoute,
    gateway_name: Seq<char>,
    gateway_namespace: Seq<char>,
)
    requires
        http.namespace == tcp.namespace,
        http.parent_refs == tcp.parent_refs,
        http.rules is Some,
        http.rules->0@.len() == tcp.rules@.len(),
        forall|i: int|
            0 <= i < tcp.rules@.len() ==> (#[trigger] http.rules->0@[i]).backend_refs == Some(
                tcp.rules@[i].backend_refs,
            ),
    ensures
        spec_http_route_backends(http, gateway_name, gateway_namespace) == spec_tcp_route_backends(
            tcp,
            gateway_name,
            gateway_namespace,
        ),
{
    let ns = namespace_or(http.namespace, gateway_namespace);
    lemma_rules_agree(http.rules->0@, tcp.rules@, ns);
}

/// HTTP and TCP rules with the same backend references yield the same
/// backends.
proof fn lemma_rules_agree(h: Seq<HttpRouteRule>, t: Seq<TcpRouteRule>, ns: Seq<char>)
    requires
        h.len() == t.len(),
        forall|i: int| 0 <= i < t.len() ==> (#[trigger] h[i]).backend_refs == Some(t[i].backend_refs),
    ensures
        http_rules_backends(h, ns) == tcp_rules_backends(t, ns),
    decreases t.len(),
{
    if t.len() > 0 {
        assert forall|i: int| 0 <= i < t.drop_last().len() implies (#[trigger] h.drop_last()[i]).backend_refs
            == Some(t.drop_last()[i].backend_refs) by {
            assert(h.drop_last()[i] == h[i]);
            assert(t.drop_last()[i] == t[i]);
        }
        lemma_rules_agree(h.drop_last(), t.drop_last(), ns);
        assert(h.last() == h[h.len() - 1]);
        assert(t.last() == t[t.len() - 1]);
    }
}

/// The port that the first backend naming one names.
proof fn lemma_first_named_port(backends: Seq<BackendInfoView>, k: int)
    requires
        0 <= k < backends.len(),
        backends[k].port is Some,
        forall|j: int| 0 <= j < k ==> (#[trigger] backends[j]).port is None,
    ensures
        first_backend_port(backends) == backends[k].port,
    decreases k,
{
    if k > 0 {
        assert(backends[0].port is None);
        let rest = backends.drop_first();
        assert forall|j: int| 0 <= j < k - 1 implies (#[trigger] rest[j]).port is None by {
            assert(rest[j] == backends[j + 1]);
        }
        assert(rest[k - 1] == backends[k]);
        lemma_first_named_port(rest, k - 1);
    }
}

/// No backend names a port.
proof fn lemma_no_named_port(backends: Seq<BackendInfoView>)
    requires
        forall|j: int| 0 <= j < backends.len() ==> (#[trigger] backends[j]).port is None,
    ensures
        first_backend_port(backends) is None,
    decreases backends.len(),
{
    if backends.len() > 0 {
        let rest = backends.drop_first();
        assert(backends[0].port is None);
        assert forall|j: int| 0 <= j < rest.len() implies (#[trigger] rest[j]).port is None by {
            assert(rest[j] == backends[j + 1]);
        }
        lemma_no_named_port(rest);
    }
}

/// Each listener port forwards to the port of the first backend, in the
/// order given, that names a port, whatever later backends name; if no
/// backend names a port, each listener port forwards to itself. No other
/// port is mapped.
pub proof fn lemma_port_mappings_follow_first_named_port(
    listener_ports: Seq<i32>,
    backends: Seq<BackendInfoView>,
)
    ensures
        forall|p: i32|
            #[trigger] spec_port_mappings(listener_ports, backends).contains_key(p)
                <==> listener_ports.contains(p),
        forall|k: int, p: i32|
            #![trigger spec_port_mappings(listener_ports, backends)[p], backends[k]]
            0 <= k < backends.len() && backends[k].port is Some && (forall|j: int|
                0 <= j < k ==> (#[trigger] backends[j]).port is None) && listener_ports.contains(p)
                ==> spec_port_mappings(listener_ports, backends)[p] == backends[k].port->0,
        (forall|j: int| 0 <= j < backends.len() ==> (#[trigger] backends[j]).port is None)
            ==> forall|p: i32|
            listener_ports.contains(p) ==> #[trigger] spec_port_mappings(listener_ports, backends)[p]
                == p,
{
    assert forall|k: int, p: i32|
        #![trigger spec_port_mappings(listener_ports, backends)[p], backends[k]]
        0 <= k < backends.len() && backends[k].port is Some && (forall|j: int|
            0 <= j < k ==> (#[trigger] backends[j]).port is None) && listener_ports.contains(p)
            implies spec_port_mappings(listener_ports, backends)[p] == backends[k].port->0 by {
        lemma_first_named_port(backends, k);
    }
    if forall|j: int| 0 <= j < backends.len() ==> (#[trigger] backends[j]).port is None {
        lemma_no_named_port(backends);
    }
}

/// The namespace in which a parent reference looks for its Gateway: its
/// own, else the route's, else the Gateway's.
pub open spec fn parent_namespace(
    parent: RouteParentRef,
    route_namespace: Option<String>,
    gateway_namespace: Seq<char>,
) -> Seq<char> {
    match parent.namespace {
        Some(n) => n@,
        None => match route_namespace {
            Some(r) => r@,
            None => gateway_namespace,
        },
    }
}

/// Whether some parent reference names the Gateway `gateway_name` in
/// `gateway_namespace`, both name and namespace matching.
pub open spec fn some_parent_names(
    parents: Seq<RouteParentRef>,
    route_namespace: Option<String>,
    gateway_name: Seq<char>,
    gateway_namespace: Seq<char>,
) -> bool {
    exists|i: int|
        0 <= i < parents.len() && (#[trigger] parents[i]).name@ == gateway_name && parent_namespace(
            parents[i],
            route_namespace,
            gateway_namespace,
        ) == gateway_namespace
}

/// A route attaches to a Gateway exactly when one of its parent references
/// has the Gateway's name and namespace: then an HTTPRoute or a TCPRoute
/// contributes the backends of all its rules, otherwise none, whatever
/// Gateways of the same namespace it names.
pub proof fn lemma_routes_attach_to_named_gateway(
    http: HttpRoute,
    tcp: TcpRoute,
    gateway_name: Seq<char>,
    gateway_namespace: Seq<char>,
)
    ensures
        !some_parent_names(http.parent_refs->0@, http.namespace, gateway_name, gateway_namespace)
            ==> spec_http_route_backends(http, gateway_name, gateway_namespace) == Seq::<
            BackendInfoView,
        >::empty(),
        some_parent_names(http.parent_refs->0@, http.namespace, gateway_name, gateway_namespace)
            ==> spec_http_route_backends(http, gateway_name, gateway_namespace) == match http.rules {
            Some(rules) => http_rules_backends(
                rules@,
                namespace_or(http.namespace, gateway_namespace),
            ),
            None => Seq::empty(),
        },
        !some_parent_names(tcp.parent_refs->0@, tcp.namespace, gateway_name, gateway_namespace)
            ==> spec_tcp_route_backends(tcp, gateway_name, gateway_namespace) == Seq::<
            BackendInfoView,
        >::empty(),
        some_parent_names(tcp.parent_refs->0@, tcp.namespace, gateway_name, gateway_namespace)
            ==> spec_tcp_route_backends(tcp, gateway_name, gateway_namespace) == tcp_rules_backends(
            tcp.rules@,
            namespace_or(tcp.namespace, gateway_namespace),
        ),
{
    lemma_references_iff_names(http.parent_refs->0@, http.namespace, gateway_name, gateway_namespace);
    lemma_references_iff_names(tcp.parent_refs->0@, tcp.namespace, gateway_name, gateway_namespace);
}

proof fn lemma_references_iff_names(
    parents: Seq<RouteParentRef>,
    route_namespace: Option<String>,
    gateway_name: Seq<char>,
    gateway_namespace: Seq<char>,
)
    ensures
        references_gateway(
            parents,
            namespace_or(route_namespace, gateway_namespace),
            gateway_name,
            gateway_namespace,
        ) <==> some_parent_names(parents, route_namespace, gateway_name, gateway_namespace),
{
    let rn = namespace_or(route_namespace, gateway_namespace);
    if references_gateway(parents, rn, gateway_name, gateway_namespace) {
        let i = choose|i: int|
            0 <= i < parents.len() && #[trigger] refers_to_gateway(
                parents[i],
                rn,
                gateway_name,
                gateway_namespace,
            );
        assert(parents[i].name@ == gateway_name);
    }
    if some_parent_names(parents, route_namespace, gateway_name, gateway_namespace) {
        let i = choose|i: int|
            0 <= i < parents.len() && (#[trigger] parents[i]).name@ == gateway_name
                && parent_namespace(parents[i], route_namespace, gateway_namespace)
                == gateway_namespace;
        assert(refers_to_gateway(parents[i], rn, gateway_name, gateway_namespace));
    }
}

} // verus!
