use hcloud::apis::configuration::Configuration;
use robotlb::config::OperatorConfig;
use robotlb::error::RobotLBError;
use robotlb::health::handle_request;
use robotlb::label_filter::LabelFilter;
use robotlb::lb::LoadBalancer;
use robotlb::meta::ResourceMeta;
use robotlb::reconcile::{
    add_node_targets, add_pod_node_targets, add_service_ports, node_ip_type, on_error,
    plan_service_reconcile, ErrorAction, NodeAddress, NodeInfo, NodeStatusInfo, PodInfo,
    ServiceAction, ServicePortInfo, REQUEUE_SECONDS,
};
use robotlb::string_map::StringMap;

fn labels(pairs: &[(&str, &str)]) -> StringMap {
    let mut m = StringMap::new();
    for (k, v) in pairs {
        m.insert(k.to_string(), v.to_string());
    }
    m
}

fn lb(network: Option<&str>) -> LoadBalancer {
    let cfg = OperatorConfig {
        hcloud_token: String::new(),
        default_network: network.map(str::to_string),
        dynamic_node_selector: false,
        default_lb_retries: 3,
        default_lb_timeout: 10,
        default_lb_interval: 15,
        default_lb_location: "hel1".to_string(),
        default_balancer_type: "lb11".to_string(),
        default_lb_algorithm: "least-connections".to_string(),
        default_lb_proxy_mode_enabled: false,
        ipv6_ingress: false,
        log_level: "INFO".to_string(),
    };
    let meta = ResourceMeta {
        name: Some("svc".to_string()),
        generate_name: None,
        namespace: Some("default".to_string()),
        annotations: None,
    };
    LoadBalancer::try_from_meta(&meta, &cfg, &Configuration::new()).unwrap()
}

fn node(label_pairs: &[(&str, &str)], addresses: &[(&str, &str)]) -> NodeInfo {
    NodeInfo {
        name: None,
        labels: labels(label_pairs),
        status: Some(NodeStatusInfo {
            addresses: Some(
                addresses
                    .iter()
                    .map(|(t, a)| NodeAddress { type_: t.to_string(), address: a.to_string() })
                    .collect(),
            ),
        }),
    }
}

#[test]
fn label_filter_rules() {
    let f = LabelFilter::from_str(
        "node-role.kubernetes.io/control-plane!=true,beta.kubernetes.io/arch=amd64",
    )
    .unwrap();
    assert!(f.check(&labels(&[("beta.kubernetes.io/arch", "amd64")])));
    assert!(f.check(&labels(&[
        ("beta.kubernetes.io/arch", "amd64"),
        ("node-role.kubernetes.io/control-plane", "false"),
    ])));
    assert!(!f.check(&labels(&[
        ("beta.kubernetes.io/arch", "amd64"),
        ("node-role.kubernetes.io/control-plane", "true"),
    ])));
    assert!(!f.check(&labels(&[("beta.kubernetes.io/arch", "arm64")])));

    let f = LabelFilter::from_str("!spot,gpu").unwrap();
    assert!(f.check(&labels(&[("gpu", "")])));
    assert!(!f.check(&labels(&[("gpu", "yes"), ("spot", "yes")])));
    assert!(!f.check(&labels(&[])));
}

#[test]
fn label_filter_default_selects_everything() {
    let f = LabelFilter::default();
    assert!(f.check(&labels(&[])));
    assert!(f.check(&labels(&[("a", "b")])));
}

#[test]
fn label_filter_rejects_two_equal_signs() {
    match LabelFilter::from_str("a=b=c") {
        Err(RobotLBError::InvalidNodeFilter(text)) => assert_eq!(text, "a=b=c"),
        other => panic!("unexpected {other:?}"),
    }
    assert!(LabelFilter::from_str("x,a=b,c=d=e").is_err());
}

#[test]
fn service_plan() {
    let lb_type = Some("LoadBalancer".to_string());
    assert_eq!(plan_service_reconcile(&None, false, false), ServiceAction::Skip);
    assert_eq!(
        plan_service_reconcile(&Some("NodePort".to_string()), true, true),
        ServiceAction::Skip
    );
    assert_eq!(plan_service_reconcile(&lb_type, true, true), ServiceAction::Cleanup);
    assert_eq!(
        plan_service_reconcile(&lb_type, false, false),
        ServiceAction::Reconcile { add_finalizer: true }
    );
    assert_eq!(
        plan_service_reconcile(&lb_type, false, true),
        ServiceAction::Reconcile { add_finalizer: false }
    );
}

#[test]
fn error_actions() {
    assert_eq!(on_error(&RobotLBError::SkipService), ErrorAction::AwaitChange);
    assert_eq!(
        on_error(&RobotLBError::HCloudError("boom".to_string())),
        ErrorAction::Requeue { seconds: REQUEUE_SECONDS }
    );
    assert_eq!(REQUEUE_SECONDS, 30);
}

#[test]
fn node_targets_follow_network_and_filter() {
    let nodes = vec![
        node(&[("role", "worker")], &[("InternalIP", "10.0.0.1"), ("ExternalIP", "1.1.1.1")]),
        node(&[("role", "control")], &[("InternalIP", "10.0.0.2"), ("ExternalIP", "2.2.2.2")]),
        NodeInfo { name: None, labels: labels(&[("role", "worker")]), status: None },
        NodeInfo {
            name: None,
            labels: labels(&[("role", "worker")]),
            status: Some(NodeStatusInfo { addresses: None }),
        },
        node(&[("role", "worker")], &[("ExternalIP", "3.3.3.3"), ("Hostname", "n3")]),
    ];
    let filter = LabelFilter::from_str("role=worker").unwrap();

    let mut private = lb(Some("net"));
    assert_eq!(node_ip_type(&private.network_name), "InternalIP");
    add_node_targets(&mut private, &nodes, &filter);
    assert_eq!(private.targets, vec!["10.0.0.1"]);

    let mut public = lb(None);
    assert_eq!(node_ip_type(&public.network_name), "ExternalIP");
    add_node_targets(&mut public, &nodes, &filter);
    assert_eq!(public.targets, vec!["1.1.1.1", "3.3.3.3"]);

    let mut all = lb(None);
    add_node_targets(&mut all, &nodes, &LabelFilter::default());
    assert_eq!(all.targets, vec!["1.1.1.1", "2.2.2.2", "3.3.3.3"]);
}

#[test]
fn only_tcp_ports_with_node_ports_are_forwarded() {
    let ports = vec![
        ServicePortInfo { port: 80, protocol: None, node_port: Some(30080) },
        ServicePortInfo { port: 443, protocol: Some("TCP".to_string()), node_port: Some(30443) },
        ServicePortInfo { port: 53, protocol: Some("UDP".to_string()), node_port: Some(30053) },
        ServicePortInfo { port: 8080, protocol: Some("TCP".to_string()), node_port: None },
    ];
    let mut balancer = lb(None);
    add_service_ports(&mut balancer, &ports);
    assert_eq!(balancer.services.len(), 2);
    assert_eq!(balancer.services.get(&80), Some(&30080));
    assert_eq!(balancer.services.get(&443), Some(&30443));

    let mut untouched = lb(None);
    add_service_ports(&mut untouched, &ports[2..]);
    assert!(untouched.services.is_empty());
}

#[test]
fn health_answers() {
    let ok = handle_request("/healthz", false);
    assert_eq!((ok.status, ok.body.as_str()), (200, "ok"));
    let ready = handle_request("/readyz", true);
    assert_eq!((ready.status, ready.body.as_str()), (200, "ready"));
    let not_ready = handle_request("/readyz", false);
    assert_eq!((not_ready.status, not_ready.body.as_str()), (503, "not ready"));
    let missing = handle_request("/metrics", true);
    assert_eq!((missing.status, missing.body.as_str()), (404, "not found"));
}

fn named_node(name: &str, addresses: &[(&str, &str)]) -> NodeInfo {
    let mut n = node(&[], addresses);
    n.name = Some(name.to_string());
    n
}

fn pod(label_pairs: &[(&str, &str)], node_name: Option<&str>) -> PodInfo {
    PodInfo { labels: labels(label_pairs), node_name: node_name.map(str::to_string) }
}

#[test]
fn dynamic_selection_targets_nodes_of_selected_pods() {
    let nodes = vec![
        named_node("n1", &[("ExternalIP", "1.1.1.1"), ("InternalIP", "10.0.0.1")]),
        named_node("n2", &[("ExternalIP", "2.2.2.2"), ("InternalIP", "10.0.0.2")]),
        named_node("n3", &[("ExternalIP", "3.3.3.3"), ("InternalIP", "10.0.0.3")]),
        node(&[], &[("ExternalIP", "4.4.4.4")]),
    ];
    let pods = vec![
        pod(&[("app", "target"), ("tier", "web")], Some("n3")),
        pod(&[("app", "other")], Some("n2")),
        pod(&[("app", "target")], Some("n1")),
        pod(&[("app", "target")], Some("n3")),
        pod(&[("app", "target")], None),
    ];
    let selector = Some(labels(&[("app", "target")]));

    let mut public = lb(None);
    add_pod_node_targets(&mut public, &nodes, &pods, &selector);
    assert_eq!(public.targets, vec!["1.1.1.1", "3.3.3.3"]);

    let mut private = lb(Some("net"));
    add_pod_node_targets(&mut private, &nodes, &pods, &selector);
    assert_eq!(private.targets, vec!["10.0.0.1", "10.0.0.3"]);
    assert!(private.services.is_empty());
}

#[test]
fn dynamic_selection_without_selector_chooses_nothing() {
    let nodes = vec![named_node("n1", &[("ExternalIP", "1.1.1.1")])];
    let pods = vec![pod(&[("app", "target")], Some("n1"))];

    let mut none = lb(None);
    add_pod_node_targets(&mut none, &nodes, &pods, &None);
    assert!(none.targets.is_empty());

    let mut empty = lb(None);
    add_pod_node_targets(&mut empty, &nodes, &pods, &Some(StringMap::new()));
    assert!(empty.targets.is_empty());

    let mut unmatched = lb(None);
    add_pod_node_targets(&mut unmatched, &nodes, &pods, &Some(labels(&[("app", "target"), ("tier", "db")])));
    assert!(unmatched.targets.is_empty());
}

#[test]
fn string_map_subset_empty_and_clone() {
    let small = labels(&[("app", "target")]);
    let big = labels(&[("tier", "web"), ("app", "target")]);
    assert!(small.is_subset_of(&big));
    assert!(!big.is_subset_of(&small));
    assert!(!labels(&[("app", "other")]).is_subset_of(&big));
    assert!(StringMap::new().is_subset_of(&small));
    assert!(StringMap::new().is_empty());
    assert!(!small.is_empty());

    let mut m = labels(&[("a", "1"), ("b", "2")]);
    m.insert("a".to_string(), "3".to_string());
    let copy = m.clone();
    assert_eq!(copy.get("a").map(String::as_str), Some("3"));
    assert_eq!(copy.get("b").map(String::as_str), Some("2"));
    assert_eq!(copy.get("c"), None);
    assert!(copy.is_subset_of(&m) && m.is_subset_of(&copy));
}
