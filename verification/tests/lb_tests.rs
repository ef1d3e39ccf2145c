use hcloud::apis::configuration::Configuration;
use robotlb::config::OperatorConfig;
use robotlb::consts;
use robotlb::error::RobotLBError;
use robotlb::gateway::{BackendPods, GatewayLoadBalancer};
use robotlb::lb::api::single_load_balancer;
use robotlb::lb::{LBAlgorithm, LoadBalancer};
use robotlb::meta::ResourceMeta;
use robotlb::reconcile::{NodeAddress, NodeInfo, NodeStatusInfo, PodInfo};
use robotlb::routes::BackendInfo;
use robotlb::string_map::StringMap;

fn config() -> OperatorConfig {
    OperatorConfig {
        hcloud_token: "token".to_string(),
        default_network: None,
        dynamic_node_selector: false,
        default_lb_retries: 3,
        default_lb_timeout: 10,
        default_lb_interval: 15,
        default_lb_location: "hel1".to_string(),
        default_balancer_type: "lb11".to_string(),
        default_lb_algorithm: "least-connections".to_string(),
        default_lb_proxy_mode_enabled: false,
        ipv6_ingress: false,
        log_level: "INFO".to_string(),
    }
}

fn meta(annotations: &[(&str, &str)]) -> ResourceMeta {
    let mut map = StringMap::new();
    for (k, v) in annotations {
        map.insert(k.to_string(), v.to_string());
    }
    ResourceMeta {
        name: Some("my-gateway".to_string()),
        generate_name: None,
        namespace: Some("infra".to_string()),
        annotations: Some(map),
    }
}

#[test]
fn defaults_apply_without_annotations() {
    let m = ResourceMeta { annotations: None, ..meta(&[]) };
    let lb = LoadBalancer::try_from_meta(&m, &config(), &Configuration::new()).unwrap();
    assert_eq!(lb.name, "my-gateway");
    assert_eq!(lb.retries, 3);
    assert_eq!(lb.timeout, 10);
    assert_eq!(lb.check_interval, 15);
    assert_eq!(lb.location, "hel1");
    assert_eq!(lb.balancer_type, "lb11");
    assert_eq!(lb.algorithm, LBAlgorithm::LeastConnections);
    assert!(!lb.proxy_mode);
    assert_eq!(lb.network_name, None);
    assert_eq!(lb.private_ip, None);
    assert!(lb.services.is_empty());
    assert!(lb.targets.is_empty());
}

#[test]
fn annotations_override_defaults() {
    let m = meta(&[
        (consts::LB_NAME_LABEL_NAME, "custom name"),
        (consts::LB_NETWORK_LABEL_NAME, "my-net"),
        (consts::LB_PRIVATE_IP_LABEL_NAME, "10.10.10.10"),
        (consts::LB_CHECK_INTERVAL_ANN_NAME, "5"),
        (consts::LB_TIMEOUT_ANN_NAME, "+3"),
        (consts::LB_RETRIES_ANN_NAME, "-2"),
        (consts::LB_PROXY_MODE_LABEL_NAME, "true"),
        (consts::LB_LOCATION_LABEL_NAME, "fsn1"),
        (consts::LB_ALGORITHM_LABEL_NAME, "round-robin"),
        (consts::LB_BALANCER_TYPE_LABEL_NAME, "lb21"),
    ]);
    let lb = LoadBalancer::try_from_meta(&m, &config(), &Configuration::new()).unwrap();
    assert_eq!(lb.name, "custom name");
    assert_eq!(lb.network_name.as_deref(), Some("my-net"));
    assert_eq!(lb.private_ip.as_deref(), Some("10.10.10.10"));
    assert_eq!(lb.check_interval, 5);
    assert_eq!(lb.timeout, 3);
    assert_eq!(lb.retries, -2);
    assert!(lb.proxy_mode);
    assert_eq!(lb.location, "fsn1");
    assert_eq!(lb.algorithm, LBAlgorithm::RoundRobin);
    assert_eq!(lb.balancer_type, "lb21");
}

#[test]
fn default_network_is_used_when_annotation_is_missing() {
    let mut cfg = config();
    cfg.default_network = Some("default-net".to_string());
    let lb = LoadBalancer::try_from_meta(&meta(&[]), &cfg, &Configuration::new()).unwrap();
    assert_eq!(lb.network_name.as_deref(), Some("default-net"));
}

#[test]
fn invalid_integer_annotation_is_an_error() {
    for bad in ["abc", "", " 5", "5 ", "1_000", "2147483648", "-", "+"] {
        let m = meta(&[(consts::LB_TIMEOUT_ANN_NAME, bad)]);
        let r = LoadBalancer::try_from_meta(&m, &config(), &Configuration::new());
        assert!(matches!(r, Err(RobotLBError::InvalidIntegerValue(_))), "{bad:?}");
    }
    let m = meta(&[(consts::LB_RETRIES_ANN_NAME, "-2147483648")]);
    let lb = LoadBalancer::try_from_meta(&m, &config(), &Configuration::new()).unwrap();
    assert_eq!(lb.retries, i32::MIN);
}

#[test]
fn invalid_boolean_annotation_is_an_error() {
    for bad in ["yes", "True", "1", ""] {
        let m = meta(&[(consts::LB_PROXY_MODE_LABEL_NAME, bad)]);
        let r = LoadBalancer::try_from_meta(&m, &config(), &Configuration::new());
        assert!(matches!(r, Err(RobotLBError::InvalidBooleanValue(_))), "{bad:?}");
    }
    let m = meta(&[(consts::LB_PROXY_MODE_LABEL_NAME, "false")]);
    let mut cfg = config();
    cfg.default_lb_proxy_mode_enabled = true;
    let lb = LoadBalancer::try_from_meta(&m, &cfg, &Configuration::new()).unwrap();
    assert!(!lb.proxy_mode);
}

#[test]
fn unknown_algorithm_is_an_error() {
    let m = meta(&[(consts::LB_ALGORITHM_LABEL_NAME, "least-connection")]);
    let r = LoadBalancer::try_from_meta(&m, &config(), &Configuration::new());
    assert!(matches!(r, Err(RobotLBError::UnknownLBAlgorithm)));
    let mut cfg = config();
    cfg.default_lb_algorithm = "random".to_string();
    let r = LoadBalancer::try_from_meta(&meta(&[]), &cfg, &Configuration::new());
    assert!(matches!(r, Err(RobotLBError::UnknownLBAlgorithm)));
    assert!(matches!(LBAlgorithm::from_str("round-robin"), Ok(LBAlgorithm::RoundRobin)));
    assert!(matches!(
        LBAlgorithm::from_str("least-connections"),
        Ok(LBAlgorithm::LeastConnections)
    ));
}

#[test]
fn integer_errors_come_before_boolean_and_algorithm_errors() {
    let m = meta(&[
        (consts::LB_ALGORITHM_LABEL_NAME, "nope"),
        (consts::LB_PROXY_MODE_LABEL_NAME, "nope"),
        (consts::LB_CHECK_INTERVAL_ANN_NAME, "nope"),
    ]);
    let r = LoadBalancer::try_from_meta(&m, &config(), &Configuration::new());
    assert!(matches!(r, Err(RobotLBError::InvalidIntegerValue(_))));
    let m = meta(&[
        (consts::LB_ALGORITHM_LABEL_NAME, "nope"),
        (consts::LB_PROXY_MODE_LABEL_NAME, "nope"),
    ]);
    let r = LoadBalancer::try_from_meta(&m, &config(), &Configuration::new());
    assert!(matches!(r, Err(RobotLBError::InvalidBooleanValue(_))));
}

#[test]
fn gateway_name_and_namespace() {
    let g = GatewayLoadBalancer::try_from_gateway(&meta(&[]), &config(), &Configuration::new())
        .unwrap();
    assert_eq!(g.gateway_name, "my-gateway");
    assert_eq!(g.gateway_namespace, "infra");
    assert_eq!(g.lb.name, "my-gateway");

    let named = meta(&[(consts::LB_NAME_LABEL_NAME, "shared")]);
    let g = GatewayLoadBalancer::try_from_gateway(&named, &config(), &Configuration::new())
        .unwrap();
    assert_eq!(g.gateway_name, "my-gateway");
    assert_eq!(g.lb.name, "shared");

    let generated = ResourceMeta {
        name: None,
        generate_name: Some("gw-".to_string()),
        ..meta(&[])
    };
    let g = GatewayLoadBalancer::try_from_gateway(&generated, &config(), &Configuration::new())
        .unwrap();
    assert_eq!(g.gateway_name, "gw-");
}

#[test]
fn gateway_without_namespace_is_skipped_after_annotation_errors() {
    let no_ns = ResourceMeta { namespace: None, ..meta(&[]) };
    let r = GatewayLoadBalancer::try_from_gateway(&no_ns, &config(), &Configuration::new());
    assert!(matches!(r, Err(RobotLBError::SkipGateway)));
    let bad = ResourceMeta { namespace: None, ..meta(&[(consts::LB_RETRIES_ANN_NAME, "x")]) };
    let r = GatewayLoadBalancer::try_from_gateway(&bad, &config(), &Configuration::new());
    assert!(matches!(r, Err(RobotLBError::InvalidIntegerValue(_))));
}

#[test]
fn add_service_and_target() {
    let mut g = GatewayLoadBalancer::try_from_gateway(&meta(&[]), &config(), &Configuration::new())
        .unwrap();
    g.add_service(80, 30080);
    g.add_service(443, 30443);
    g.add_service(80, 31080);
    assert_eq!(g.lb.services.len(), 2);
    assert_eq!(g.lb.services.get(&80), Some(&31080));
    assert_eq!(g.lb.services.get(&443), Some(&30443));
    g.add_target("10.0.0.1");
    g.add_target("10.0.0.2");
    g.add_target("10.0.0.1");
    assert_eq!(g.lb.targets, vec!["10.0.0.1", "10.0.0.2", "10.0.0.1"]);
}

#[test]
fn single_load_balancer_by_count() {
    assert!(matches!(single_load_balancer::<u8>(vec![]), Ok(None)));
    assert!(matches!(single_load_balancer(vec![7u8]), Ok(Some(7))));
    assert!(matches!(single_load_balancer(vec![1u8, 2]), Err(RobotLBError::SkipService)));
}

#[test]
fn string_map_insert_replaces() {
    let mut m = StringMap::new();
    assert_eq!(m.get("a"), None);
    m.insert("a".to_string(), "1".to_string());
    m.insert("b".to_string(), "2".to_string());
    m.insert("a".to_string(), "3".to_string());
    assert_eq!(m.get("a").map(String::as_str), Some("3"));
    assert_eq!(m.get("b").map(String::as_str), Some("2"));
    assert_eq!(m.get("c"), None);
}

#[test]
fn annotation_names_match_documentation() {
    assert_eq!(consts::LB_NAME_LABEL_NAME, "robotlb/balancer");
    assert_eq!(consts::LB_NETWORK_LABEL_NAME, "robotlb/lb-network");
    assert_eq!(consts::LB_PRIVATE_IP_LABEL_NAME, "robotlb/lb-private-ip");
    assert_eq!(consts::LB_NODE_SELECTOR, "robotlb/node-selector");
    assert_eq!(consts::LB_CHECK_INTERVAL_ANN_NAME, "robotlb/lb-check-interval");
    assert_eq!(consts::LB_TIMEOUT_ANN_NAME, "robotlb/lb-timeout");
    assert_eq!(consts::LB_RETRIES_ANN_NAME, "robotlb/lb-retries");
    assert_eq!(consts::LB_PROXY_MODE_LABEL_NAME, "robotlb/lb-proxy-mode");
    assert_eq!(consts::LB_LOCATION_LABEL_NAME, "robotlb/lb-location");
    assert_eq!(consts::LB_ALGORITHM_LABEL_NAME, "robotlb/lb-algorithm");
    assert_eq!(consts::LB_BALANCER_TYPE_LABEL_NAME, "robotlb/balancer-type");
}

fn gw_node(name: &str, external: &str) -> NodeInfo {
    NodeInfo {
        name: Some(name.to_string()),
        labels: StringMap::new(),
        status: Some(NodeStatusInfo {
            addresses: Some(vec![NodeAddress {
                type_: "ExternalIP".to_string(),
                address: external.to_string(),
            }]),
        }),
    }
}

fn gw_pod(app: &str, node: &str) -> PodInfo {
    let mut labels = StringMap::new();
    labels.insert("app".to_string(), app.to_string());
    PodInfo { labels, node_name: Some(node.to_string()) }
}

fn selector(app: &str) -> Option<StringMap> {
    let mut m = StringMap::new();
    m.insert("app".to_string(), app.to_string());
    Some(m)
}

#[test]
fn gateway_configure_sets_listeners_and_targets() {
    let mut g = GatewayLoadBalancer::try_from_gateway(&meta(&[]), &config(), &Configuration::new())
        .unwrap();
    let backends = vec![
        BackendInfo { service_name: "a".to_string(), service_namespace: "infra".to_string(), port: None },
        BackendInfo { service_name: "b".to_string(), service_namespace: "infra".to_string(), port: Some(8080) },
    ];
    let nodes = vec![gw_node("n1", "1.1.1.1"), gw_node("n2", "2.2.2.2"), gw_node("n3", "3.3.3.3")];
    let backend_pods = vec![
        BackendPods { selector: selector("a"), pods: vec![gw_pod("a", "n2"), gw_pod("b", "n1")] },
        BackendPods { selector: selector("b"), pods: vec![gw_pod("a", "n2"), gw_pod("b", "n1")] },
    ];
    g.configure(&[80, 443], &backends, &nodes, &backend_pods);
    assert_eq!(g.lb.services.len(), 2);
    assert_eq!(g.lb.services.get(&80), Some(&8080));
    assert_eq!(g.lb.services.get(&443), Some(&8080));
    assert_eq!(g.lb.targets, vec!["2.2.2.2", "1.1.1.1"]);
    assert_eq!(g.gateway_name, "my-gateway");
}

#[test]
fn gateway_configure_without_backend_port_forwards_to_listener_port() {
    let mut g = GatewayLoadBalancer::try_from_gateway(&meta(&[]), &config(), &Configuration::new())
        .unwrap();
    g.configure(&[80], &[], &[], &[]);
    assert_eq!(g.lb.services.get(&80), Some(&80));
    assert!(g.lb.targets.is_empty());
    assert_eq!(consts::GATEWAY_CLASS_NAME, "robotlb");
}
