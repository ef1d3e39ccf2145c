use robotlb::error::RobotLBError;
use robotlb::routes::{
    backends_to_fetch, determine_port_mappings, extract_http_route_backends,
    extract_tcp_route_backends, BackendInfo, HttpRoute, HttpRouteRule, RouteBackendRef,
    RouteParentRef, TcpRoute, TcpRouteRule,
};

fn parent(name: &str, ns: Option<&str>) -> RouteParentRef {
    RouteParentRef { name: name.to_string(), namespace: ns.map(str::to_string) }
}

fn backend_ref(name: &str, ns: Option<&str>, port: Option<i32>) -> RouteBackendRef {
    RouteBackendRef { name: name.to_string(), namespace: ns.map(str::to_string), port }
}

fn backend(name: &str, ns: &str, port: Option<i32>) -> BackendInfo {
    BackendInfo { service_name: name.to_string(), service_namespace: ns.to_string(), port }
}

fn summary(b: &[BackendInfo]) -> Vec<(String, String, Option<i32>)> {
    b.iter().map(|b| (b.service_namespace.clone(), b.service_name.clone(), b.port)).collect()
}

#[test]
fn http_route_backends_follow_namespaces() {
    let route = HttpRoute {
        namespace: Some("apps".to_string()),
        parent_refs: Some(vec![parent("other", None), parent("gw", Some("infra"))]),
        rules: Some(vec![
            HttpRouteRule {
                backend_refs: Some(vec![
                    backend_ref("web", None, Some(8080)),
                    backend_ref("api", Some("backend"), None),
                ]),
            },
            HttpRouteRule { backend_refs: None },
            HttpRouteRule { backend_refs: Some(vec![backend_ref("web", None, Some(9090))]) },
        ]),
    };
    let b = extract_http_route_backends(&route, "gw", "infra").unwrap();
    assert_eq!(
        summary(&b),
        vec![
            ("apps".to_string(), "web".to_string(), Some(8080)),
            ("backend".to_string(), "api".to_string(), None),
            ("apps".to_string(), "web".to_string(), Some(9090)),
        ]
    );
}

#[test]
fn http_route_for_other_gateway_contributes_nothing() {
    let route = HttpRoute {
        namespace: Some("apps".to_string()),
        parent_refs: Some(vec![parent("gw", None)]),
        rules: Some(vec![HttpRouteRule {
            backend_refs: Some(vec![backend_ref("web", None, Some(80))]),
        }]),
    };
    // The parent has no namespace, so it means the route's namespace `apps`.
    assert!(extract_http_route_backends(&route, "gw", "infra").unwrap().is_empty());
    assert_eq!(extract_http_route_backends(&route, "gw", "apps").unwrap().len(), 1);
    let no_rules = HttpRoute { rules: None, ..route.clone() };
    assert!(extract_http_route_backends(&no_rules, "gw", "apps").unwrap().is_empty());
}

#[test]
fn route_without_parent_refs_is_an_error() {
    let http = HttpRoute { namespace: None, parent_refs: None, rules: None };
    assert!(matches!(
        extract_http_route_backends(&http, "gw", "infra"),
        Err(RobotLBError::RouteWithoutParentRefs)
    ));
    let tcp = TcpRoute { namespace: None, parent_refs: None, rules: vec![] };
    assert!(matches!(
        extract_tcp_route_backends(&tcp, "gw", "infra"),
        Err(RobotLBError::RouteWithoutParentRefs)
    ));
}

#[test]
fn route_without_namespace_uses_gateway_namespace() {
    let tcp = TcpRoute {
        namespace: None,
        parent_refs: Some(vec![parent("gw", None)]),
        rules: vec![
            TcpRouteRule { backend_refs: vec![backend_ref("db", None, Some(3306))] },
            TcpRouteRule { backend_refs: vec![] },
        ],
    };
    let b = extract_tcp_route_backends(&tcp, "gw", "infra").unwrap();
    assert_eq!(summary(&b), vec![("infra".to_string(), "db".to_string(), Some(3306))]);
}

#[test]
fn http_and_tcp_routes_agree() {
    let refs = vec![backend_ref("a", None, Some(1)), backend_ref("b", Some("x"), None)];
    let http = HttpRoute {
        namespace: Some("ns".to_string()),
        parent_refs: Some(vec![parent("gw", Some("infra"))]),
        rules: Some(vec![HttpRouteRule { backend_refs: Some(refs.clone()) }]),
    };
    let tcp = TcpRoute {
        namespace: Some("ns".to_string()),
        parent_refs: Some(vec![parent("gw", Some("infra"))]),
        rules: vec![TcpRouteRule { backend_refs: refs }],
    };
    assert_eq!(
        summary(&extract_http_route_backends(&http, "gw", "infra").unwrap()),
        summary(&extract_tcp_route_backends(&tcp, "gw", "infra").unwrap())
    );
}

#[test]
fn backends_to_fetch_keeps_first_of_each_service() {
    let backends = vec![
        backend("web", "apps", Some(80)),
        backend("api", "apps", None),
        backend("web", "apps", Some(90)),
        backend("web", "other", None),
    ];
    let chosen = backends_to_fetch(&backends);
    assert_eq!(
        summary(&chosen),
        vec![
            ("apps".to_string(), "web".to_string(), Some(80)),
            ("apps".to_string(), "api".to_string(), None),
            ("other".to_string(), "web".to_string(), None),
        ]
    );
    assert_eq!(summary(&backends_to_fetch(&chosen)), summary(&chosen));
    assert!(backends_to_fetch(&[]).is_empty());
}

#[test]
fn backends_to_fetch_compares_joined_keys() {
    // `a/b` + `c` and `a` + `b/c` share the key `a/b/c`.
    let backends = vec![backend("c", "a/b", None), backend("b/c", "a", None)];
    assert_eq!(backends_to_fetch(&backends).len(), 1);
}

#[test]
fn port_mappings_use_first_backend_port() {
    let backends = vec![backend("a", "x", None), backend("b", "x", Some(8080)), backend("c", "x", Some(9090))];
    let m = determine_port_mappings(&[80, 443], &backends);
    assert_eq!(m.len(), 2);
    assert_eq!(m.get(&80), Some(&8080));
    assert_eq!(m.get(&443), Some(&8080));
}

#[test]
fn port_mappings_default_to_listener_port() {
    let backends = vec![backend("a", "x", None)];
    let m = determine_port_mappings(&[80, 443, 80], &backends);
    assert_eq!(m.len(), 2);
    assert_eq!(m.get(&80), Some(&80));
    assert_eq!(m.get(&443), Some(&443));
    assert!(determine_port_mappings(&[], &backends).is_empty());
}
